//! The state of the calendar window: what is shown, what is selected, what is being typed.
use vstd::prelude::*;

use crate::agenda::{parse_event, Agenda};
use crate::config::Weekday;
use crate::date::{from_ymd, minus_days, plus_days, Date};
use crate::month::{add_months, days_in_month};
use crate::text::{control, piece, text_eq, to_chars};

verus! {

/// The state of the window.
pub struct Calendar {
    pub events: Agenda,
    /// The year and the month that are shown.
    pub view: (i32, u32),
    pub selected: Date,
    /// The place of an event among those of the selected day, to delete it.
    pub sel_event: Option<usize>,
    /// What has been typed of a new event, while one is being typed.
    pub input: Option<String>,
    pub week_start: Weekday,
    pub today: Date,
    /// What went wrong when the file was last saved.
    pub status: Option<String>,
}

#[verifier::ext_equal]
pub struct CalendarView {
    pub events: Map<Date, Seq<crate::agenda::EventView>>,
    pub view: (i32, u32),
    pub selected: Date,
    pub sel_event: Option<int>,
    pub input: Option<Seq<char>>,
    pub week_start: Weekday,
    pub today: Date,
    pub status: Option<Seq<char>>,
}

impl View for Calendar {
    type V = CalendarView;

    open spec fn view(&self) -> CalendarView {
        CalendarView {
            events: self.events@,
            view: self.view,
            selected: self.selected,
            sel_event: match self.sel_event {
                Some(i) => Some(i as int),
                None => None,
            },
            input: crate::text::opt_text(self.input),
            week_start: self.week_start,
            today: self.today,
            status: crate::text::opt_text(self.status),
        }
    }
}

// ── What each action does ─────────────────────────────────────────────────

/// The state once a day has been selected; its month is shown.
pub open spec fn after_select(c: CalendarView, date: Date) -> CalendarView {
    CalendarView { selected: date, sel_event: None, view: (date.year, date.month), ..c }
}

/// The state once the months have been moved: the same day of the month is selected, or the
/// last of a shorter one. Outside the calendar the selection stays.
pub open spec fn after_shift_months(c: CalendarView, delta: int) -> CalendarView {
    let (y, m) = crate::month::month_plus(c.view.0 as int, c.view.1 as int, delta);
    let days = crate::month::month_days(y, m);
    let day = if c.selected.day <= days {
        c.selected.day as int
    } else {
        days
    };
    let date = Date { year: y as i32, month: m as u32, day: day as u32 };
    if crate::date::valid_date(date) {
        CalendarView { view: (y as i32, m as u32), selected: date, sel_event: None, ..c }
    } else {
        CalendarView { view: (y as i32, m as u32), ..c }
    }
}

/// Whether `d` is the state once the selection has moved by days: as if the day there had been
/// selected; beyond the calendar nothing changes.
pub open spec fn is_shifted(c: CalendarView, delta: int, d: CalendarView) -> bool {
    let n = crate::date::day_number(c.selected) + delta;
    if n < crate::date::day_number(crate::date::min_date()) || n > crate::date::day_number(
        crate::date::max_date(),
    ) {
        d == c
    } else {
        &&& crate::date::valid_date(d.selected)
        &&& crate::date::day_number(d.selected) == n
        &&& d == after_select(c, d.selected)
    }
}

/// The state once what was typed has been taken: where it is an event, it is on the selected
/// day.
pub open spec fn after_commit(c: CalendarView) -> CalendarView {
    let c1 = CalendarView { input: None, ..c };
    match c.input {
        None => c,
        Some(typed) => match crate::agenda::typed(typed) {
            None => c1,
            Some((time, title)) => CalendarView {
                events: c.events.insert(
                    c.selected,
                    crate::agenda::arranged(
                        crate::agenda::list_on(c.events, c.selected).push(
                            crate::agenda::EventView {
                                time,
                                title,
                                uid: None,
                                source: None,
                                recurring: false,
                            },
                        ),
                    ),
                ),
                ..c1
            },
        },
    }
}

/// Whether the selected event is one that can be deleted: it is there and is no instance of an
/// event that repeats.
pub open spec fn can_delete(c: CalendarView) -> bool {
    let list = crate::agenda::list_on(c.events, c.selected);
    match c.sel_event {
        Some(i) => 0 <= i < list.len() && !list[i].recurring,
        None => false,
    }
}

/// The state once the selected event has been deleted, where it can be. Nothing is selected
/// any more.
pub open spec fn after_delete(c: CalendarView) -> CalendarView {
    let c1 = CalendarView { sel_event: None, ..c };
    if !can_delete(c) {
        c1
    } else {
        let list = c.events[c.selected];
        CalendarView {
            events: if list.len() == 1 {
                c.events.remove(c.selected)
            } else {
                c.events.insert(c.selected, list.remove(c.sel_event->0))
            },
            ..c1
        }
    }
}

impl Calendar {
    /// The invariant.
    pub open spec fn wf(&self) -> bool {
        &&& self.events.wf()
        &&& 1 <= self.view.1 <= 12
        &&& crate::date::valid_date(self.selected)
        &&& crate::date::valid_date(self.today)
    }

    /// The window as it opens: today is selected.
    pub fn new(events: Agenda, week_start: Weekday, today: Date) -> (c: Calendar)
        requires
            events.wf(),
            crate::date::valid_date(today),
        ensures
            c.wf(),
            c@ == (CalendarView {
                events: events@,
                view: (today.year, today.month),
                selected: today,
                sel_event: None,
                input: None,
                week_start,
                today,
                status: None,
            }),
    {
        Calendar {
            events,
            view: (today.year, today.month),
            selected: today,
            sel_event: None,
            input: None,
            week_start,
            today,
            status: None,
        }
    }

    /// Selects a day.
    pub fn select(&mut self, date: Date)
        requires
            old(self).wf(),
            crate::date::valid_date(date),
        ensures
            final(self).wf(),
            final(self)@ == after_select(old(self)@, date),
    {
        self.selected = date;
        self.sel_event = None;
        self.view = (date.year, date.month);
    }

    /// Moves on by months, or back for a negative number.
    pub fn shift_months(&mut self, delta: i32)
        requires
            old(self).wf(),
            crate::month::can_move(old(self).view, delta as int),
        ensures
            final(self).wf(),
            final(self)@ == after_shift_months(old(self)@, delta as int),
    {
        let (y, m) = add_months(self.view.0, self.view.1, delta);
        self.view = (y, m);
        let days = days_in_month(y, m);
        let day = if self.selected.day <= days {
            self.selected.day
        } else {
            days
        };
        if let Some(d) = from_ymd(y, m, day) {
            self.selected = d;
            self.sel_event = None;
        }
    }

    /// Moves the selection on by days, or back for a negative number.
    pub fn shift_selected_days(&mut self, delta: i64)
        requires
            old(self).wf(),
            delta > i64::MIN,
        ensures
            final(self).wf(),
            is_shifted(old(self)@, delta as int, final(self)@),
    {
        let moved = if delta >= 0 {
            plus_days(self.selected, delta as u64)
        } else {
            minus_days(self.selected, (-delta) as u64)
        };
        proof {
            crate::date::lemma_number_bounds(self.selected);
        }
        if let Some(d) = moved {
            proof {
                crate::date::lemma_number_bounds(d);
            }
            self.select(d);
        }
    }

    /// Takes what was typed; whether there is something to save.
    pub fn commit_input(&mut self) -> (save: bool)
        requires
            old(self).wf(),
        ensures
            final(self).wf(),
            final(self)@ == after_commit(old(self)@),
            save == match old(self)@.input {
                Some(typed) => crate::agenda::typed(typed) is Some,
                None => false,
            },
    {
        let ghost c = self@;
        match self.input.take() {
            None => false,
            Some(buffer) => {
                match parse_event(buffer.as_str()) {
                    None => {
                        assert(self@ =~= after_commit(c));
                        false
                    },
                    Some(event) => {
                        proof {
                            lemma_typed_time(buffer@);
                        }
                        self.events.insert(self.selected, event);
                        assert(self@ =~= after_commit(c));
                        true
                    },
                }
            },
        }
    }

    /// Deletes the selected event; whether there is something to save. An instance of an event
    /// that repeats is not deleted.
    pub fn delete_selected_event(&mut self) -> (save: bool)
        requires
            old(self).wf(),
        ensures
            final(self).wf(),
            final(self)@ == after_delete(old(self)@),
            save == can_delete(old(self)@),
    {
        let ghost c = self@;
        let index = match self.sel_event.take() {
            None => {
                assert(self@ =~= after_delete(c));
                return false;
            },
            Some(i) => i,
        };
        let deletable = match self.events.on(self.selected) {
            None => false,
            Some(list) => {
                assert(index < list@.len() ==> crate::agenda::event_views(list@)[index as int]
                    == list@[index as int]@);
                index < list.len() && !list[index].recurring
            },
        };
        if deletable {
            self.events.remove(self.selected, index);
        }
        assert(self@ =~= after_delete(c));
        deletable
    }
}

/// An instance of an event that repeats is not deleted.
pub proof fn law_recurring_events_stay(c: CalendarView)
    requires
        c.sel_event matches Some(i) && 0 <= i < crate::agenda::list_on(
            c.events,
            c.selected,
        ).len() && crate::agenda::list_on(c.events, c.selected)[i].recurring,
    ensures
        after_delete(c).events == c.events,
{
}

/// Typing, deleting and committing leave every other day as it was.
pub proof fn law_other_days_stay(c: CalendarView, date: Date)
    requires
        date != c.selected,
    ensures
        crate::agenda::list_on(after_commit(c).events, date) == crate::agenda::list_on(
            c.events,
            date,
        ),
        crate::agenda::list_on(after_delete(c).events, date) == crate::agenda::list_on(
            c.events,
            date,
        ),
{
}

/// Moving the selection by days and then back by as many leads to the day it began with.
pub proof fn law_days_lead_back(c: CalendarView, delta: int, d: CalendarView, e: CalendarView)
    requires
        crate::date::valid_date(c.selected),
        crate::date::day_number(crate::date::min_date()) <= crate::date::day_number(c.selected)
            + delta <= crate::date::day_number(crate::date::max_date()),
        is_shifted(c, delta, d),
        is_shifted(d, -delta, e),
    ensures
        e.selected == c.selected,
{
    crate::date::lemma_number_bounds(c.selected);
    crate::date::lemma_numbers_in_order(e.selected, c.selected);
}

/// The time of a typed event is one.
proof fn lemma_typed_time(raw: Seq<char>)
    ensures
        crate::agenda::typed(raw) matches Some((time, _)) ==> crate::agenda::valid_time(time),
{
}

// ── Keys ──────────────────────────────────────────────────────────────────

/// A key, as far as the window knows it.
#[derive(Debug)]
pub enum Key {
    Escape,
    Enter,
    Backspace,
    ArrowLeft,
    ArrowRight,
    ArrowUp,
    ArrowDown,
    PageUp,
    PageDown,
    Home,
    Delete,
    Character(String),
    Other,
}

/// What a key pressed gives to do.
#[derive(Clone, Copy, Debug, PartialEq, Eq, Structural)]
pub enum Pressed {
    /// Nothing.
    Ignored,
    /// The window has changed.
    Changed,
    /// The window has changed, and there is something to save.
    Save,
    /// The window is to be closed.
    Quit,
}

/// A text without its control characters.
pub open spec fn printable(text: Seq<char>) -> Seq<char> {
    text.filter(|c: char| !crate::text::is_control(c))
}

fn append_printable(buffer: &mut String, text: &str)
    ensures
        final(buffer)@ == old(buffer)@ + printable(text@),
{
    let ghost before = buffer@;
    let ghost keeps = |c: char| !crate::text::is_control(c);
    proof {
        reveal(Seq::filter);
        assert(before + printable(text@.take(0)) =~= before);
    }
    for c in it: text.chars()
        invariant
            it.seq() == text@,
            keeps == (|c: char| !crate::text::is_control(c)),
            buffer@ == before + printable(text@.take(it.index() as int)),
    {
        let ghost k = it.index() as int;
        proof {
            reveal(Seq::filter);
            assert(text@.take(k + 1).drop_last() =~= text@.take(k));
        }
        if !control(c) {
            buffer.push(c);
            assert(before + printable(text@.take(k + 1)) =~= (before + printable(
                text@.take(k),
            )).push(c));
        }
    }
    assert(text@.take(text@.len() as int) =~= text@);
}

/// What has been typed once a key has been pressed that types.
pub open spec fn after_typing(typed: Seq<char>, key: Key, text: Option<Seq<char>>) -> Seq<char> {
    match key {
        Key::Backspace => if typed.len() > 0 {
            typed.drop_last()
        } else {
            typed
        },
        _ => match text {
            Some(t) => typed + printable(t),
            None => typed,
        },
    }
}

/// The state once a key has been pressed while an event is being typed.
pub open spec fn after_input_key(
    c: CalendarView,
    key: Key,
    text: Option<Seq<char>>,
) -> CalendarView {
    match key {
        Key::Escape => CalendarView { input: None, ..c },
        Key::Enter => after_commit(c),
        _ => CalendarView { input: Some(after_typing(c.input->0, key, text)), ..c },
    }
}

impl Calendar {
    /// A key is pressed while an event is being typed; whether there is something to save.
    pub fn key_input_mode(&mut self, key: &Key, text: Option<&str>) -> (save: bool)
        requires
            old(self).wf(),
            old(self)@.input is Some,
        ensures
            final(self).wf(),
            final(self)@ == after_input_key(
                old(self)@,
                *key,
                match text {
                    Some(t) => Some(t@),
                    None => None,
                },
            ),
            save == (*key is Enter && crate::agenda::typed(old(self)@.input->0) is Some),
    {
        let ghost c = self@;
        match key {
            Key::Escape => {
                self.input = None;
                assert(self@ =~= CalendarView { input: None, ..c });
                false
            },
            Key::Enter => self.commit_input(),
            Key::Backspace => {
                if let Some(buffer) = self.input.take() {
                    let chars = to_chars(buffer.as_str());
                    let typed = if chars.len() > 0 {
                        piece(&chars, 0, chars.len() - 1)
                    } else {
                        buffer
                    };
                    assert(chars@.len() > 0 ==> typed@ =~= chars@.drop_last());
                    self.input = Some(typed);
                }
                false
            },
            _ => {
                if let Some(mut buffer) = self.input.take() {
                    if let Some(t) = text {
                        append_printable(&mut buffer, t);
                    }
                    self.input = Some(buffer);
                }
                false
            },
        }
    }
}

/// What a key does while nothing is being typed.
#[derive(Clone, Copy, Debug, PartialEq, Eq, Structural)]
pub enum Action {
    Days(i64),
    Months(i32),
    Today,
    Type,
    Delete,
    Quit,
    Nothing,
}

/// What a key does while nothing is being typed: the arrows move by a day or a week, the page
/// keys by a month and the brackets by a year; `t` and Home go to today, `n` and Enter begin a
/// new event, `d`, `x` and Delete delete the selected one, `q` closes the window.
pub open spec fn action_of(key: Key) -> Action {
    match key {
        Key::ArrowLeft => Action::Days((-1) as i64),
        Key::ArrowRight => Action::Days(1),
        Key::ArrowUp => Action::Days((-7) as i64),
        Key::ArrowDown => Action::Days(7),
        Key::PageUp => Action::Months((-1) as i32),
        Key::PageDown => Action::Months(1),
        Key::Home => Action::Today,
        Key::Enter => Action::Type,
        Key::Delete => Action::Delete,
        Key::Character(c) => if c@ == "t"@ {
            Action::Today
        } else if c@ == "n"@ {
            Action::Type
        } else if c@ == "d"@ || c@ == "x"@ {
            Action::Delete
        } else if c@ == "["@ {
            Action::Months((-12) as i32)
        } else if c@ == "]"@ {
            Action::Months(12)
        } else if c@ == "q"@ {
            Action::Quit
        } else {
            Action::Nothing
        },
        _ => Action::Nothing,
    }
}

/// What a key does while nothing is being typed.
pub fn find_action(key: &Key) -> (a: Action)
    ensures
        a == action_of(*key),
{
    match key {
        Key::ArrowLeft => Action::Days(-1),
        Key::ArrowRight => Action::Days(1),
        Key::ArrowUp => Action::Days(-7),
        Key::ArrowDown => Action::Days(7),
        Key::PageUp => Action::Months(-1),
        Key::PageDown => Action::Months(1),
        Key::Home => Action::Today,
        Key::Enter => Action::Type,
        Key::Delete => Action::Delete,
        Key::Character(c) => {
            let c = c.as_str();
            if text_eq(c, "t") {
                Action::Today
            } else if text_eq(c, "n") {
                Action::Type
            } else if text_eq(c, "d") || text_eq(c, "x") {
                Action::Delete
            } else if text_eq(c, "[") {
                Action::Months(-12)
            } else if text_eq(c, "]") {
                Action::Months(12)
            } else if text_eq(c, "q") {
                Action::Quit
            } else {
                Action::Nothing
            }
        },
        _ => Action::Nothing,
    }
}

/// Whether the numbers suffice for what a key does.
pub open spec fn suffices_for(view: (i32, u32), key: Key) -> bool {
    match action_of(key) {
        Action::Months(n) => crate::month::can_move(view, n as int),
        _ => true,
    }
}

/// Whether `d` is the state once a key has been pressed while nothing is being typed.
pub open spec fn is_after_key(c: CalendarView, key: Key, d: CalendarView) -> bool {
    match action_of(key) {
        Action::Days(n) => is_shifted(c, n as int, d),
        Action::Months(n) => d == after_shift_months(c, n as int),
        Action::Today => d == after_select(c, c.today),
        Action::Type => d == (CalendarView { input: Some(Seq::empty()), ..c }),
        Action::Delete => d == after_delete(c),
        Action::Quit | Action::Nothing => d == c,
    }
}

impl Calendar {
    /// A key is pressed while nothing is being typed.
    pub fn key_browse_mode(&mut self, key: &Key) -> (p: Pressed)
        requires
            old(self).wf(),
            suffices_for(old(self).view, *key),
        ensures
            final(self).wf(),
            is_after_key(old(self)@, *key, final(self)@),
            p == match action_of(*key) {
                Action::Nothing => Pressed::Ignored,
                Action::Quit => Pressed::Quit,
                Action::Delete => if can_delete(old(self)@) {
                    Pressed::Save
                } else {
                    Pressed::Changed
                },
                _ => Pressed::Changed,
            },
    {
        let ghost c = self@;
        match find_action(key) {
            Action::Days(n) => {
                self.shift_selected_days(n);
                Pressed::Changed
            },
            Action::Months(n) => {
                self.shift_months(n);
                Pressed::Changed
            },
            Action::Today => {
                self.select(self.today);
                Pressed::Changed
            },
            Action::Type => {
                self.input = Some(String::new());
                assert(self@ =~= CalendarView { input: Some(Seq::empty()), ..c });
                Pressed::Changed
            },
            Action::Delete => {
                if self.delete_selected_event() {
                    Pressed::Save
                } else {
                    Pressed::Changed
                }
            },
            Action::Quit => Pressed::Quit,
            Action::Nothing => Pressed::Ignored,
        }
    }

    /// A key is pressed.
    pub fn key_pressed(&mut self, key: &Key, text: Option<&str>) -> (p: Pressed)
        requires
            old(self).wf(),
            old(self).input is None ==> suffices_for(old(self).view, *key),
        ensures
            final(self).wf(),
            if old(self)@.input is Some {
                &&& final(self)@ == after_input_key(
                    old(self)@,
                    *key,
                    match text {
                        Some(t) => Some(t@),
                        None => None,
                    },
                )
                &&& p == if *key is Enter && crate::agenda::typed(old(self)@.input->0) is Some {
                    Pressed::Save
                } else {
                    Pressed::Changed
                }
            } else {
                &&& is_after_key(old(self)@, *key, final(self)@)
                &&& p == match action_of(*key) {
                    Action::Nothing => Pressed::Ignored,
                    Action::Quit => Pressed::Quit,
                    Action::Delete => if can_delete(old(self)@) {
                        Pressed::Save
                    } else {
                        Pressed::Changed
                    },
                    _ => Pressed::Changed,
                }
            },
    {
        if self.input.is_some() {
            if self.key_input_mode(key, text) {
                Pressed::Save
            } else {
                Pressed::Changed
            }
        } else {
            self.key_browse_mode(key)
        }
    }
}

// ── The pointer and the clock ─────────────────────────────────────────────

/// What the pointer is on when its button is pressed.
#[derive(Clone, Copy, Debug, PartialEq, Eq, Structural)]
pub enum Target {
    /// The button for the month before.
    Previous,
    /// The button for the month after.
    Following,
    /// The button for today.
    Today,
    /// A day of the grid.
    Day(Date),
    /// The list of the selected day: one of its events, or none.
    List(Option<usize>),
    /// Nothing.
    Elsewhere,
}

/// The state once the button of the pointer has been pressed.
pub open spec fn after_click(c: CalendarView, target: Target) -> CalendarView {
    match target {
        Target::Previous => after_shift_months(c, -1),
        Target::Following => after_shift_months(c, 1),
        Target::Today => after_select(c, c.today),
        Target::Day(date) => after_select(c, date),
        Target::List(index) => CalendarView {
            sel_event: match index {
                Some(i) => Some(i as int),
                None => None,
            },
            ..c
        },
        Target::Elsewhere => c,
    }
}

impl Calendar {
    /// The button of the pointer is pressed; whether the window may have changed.
    pub fn click(&mut self, target: Target) -> (changed: bool)
        requires
            old(self).wf(),
            target is Previous ==> crate::month::can_move(old(self).view, -1),
            target is Following ==> crate::month::can_move(old(self).view, 1),
            target matches Target::Day(date) ==> crate::date::valid_date(date),
        ensures
            final(self).wf(),
            final(self)@ == after_click(old(self)@, target),
            changed == !(target is Elsewhere),
    {
        match target {
            Target::Previous => self.shift_months(-1),
            Target::Following => self.shift_months(1),
            Target::Today => self.select(self.today),
            Target::Day(date) => self.select(date),
            Target::List(index) => {
                self.sel_event = index;
            },
            Target::Elsewhere => return false,
        }
        true
    }

    /// It is a day by the clock; whether that is news.
    pub fn set_today(&mut self, now: Date) -> (changed: bool)
        requires
            old(self).wf(),
            crate::date::valid_date(now),
        ensures
            final(self).wf(),
            final(self)@ == (CalendarView { today: now, ..old(self)@ }),
            changed == (now != old(self).today),
    {
        let changed = now != self.today;
        self.today = now;
        changed
    }
}

} // verus!
