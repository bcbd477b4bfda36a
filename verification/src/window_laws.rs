//! What the window is for: what is typed is added to the selected day, what is selected is
//! deleted from it, and everything else stays.
use vstd::prelude::*;

use crate::agenda::EventView;
use crate::calendar::{Action, CalendarView, Key, Target};
use crate::date::Date;
use crate::record::RecordView;

verus! {

/// Whether two states of the window differ at most in the events, the selected event and what is
/// being typed.
pub open spec fn is_elsewhere_same(c: CalendarView, d: CalendarView) -> bool {
    &&& d.view == c.view
    &&& d.selected == c.selected
    &&& d.week_start == c.week_start
    &&& d.today == c.today
    &&& d.status == c.status
}

/// Whether two agendas have the same events on every day but one.
pub open spec fn is_same_but(
    a: Map<Date, Seq<EventView>>,
    b: Map<Date, Seq<EventView>>,
    date: Date,
) -> bool {
    &&& forall|d: Date| d != date ==> (#[trigger] b.contains_key(d) <==> a.contains_key(d))
    &&& forall|d: Date| d != date && a.contains_key(d) ==> #[trigger] b[d] == a[d]
}

// ── Deleting ──────────────────────────────────────────────────────────────

/// The event at the selected place of the selected day is deleted, unless it repeats: those
/// before it and those behind it are still there, in the same order, and no others. A day without
/// events is no longer there. Every other day stays as it was.
pub proof fn law_selected_event_is_deleted(c: CalendarView, at: int)
    requires
        c.sel_event == Some(at),
        c.events.contains_key(c.selected),
        0 <= at < c.events[c.selected].len(),
        !c.events[c.selected][at].recurring,
    ensures
        crate::calendar::can_delete(c),
        ({
            let d = crate::calendar::after_delete(c);
            let was = c.events[c.selected];
            &&& is_elsewhere_same(c, d)
            &&& d.input == c.input
            &&& d.sel_event is None
            &&& is_same_but(c.events, d.events, c.selected)
            &&& d.events.contains_key(c.selected) <==> was.len() > 1
            &&& was.len() > 1 ==> {
                let now = d.events[c.selected];
                &&& now.len() == was.len() - 1
                &&& forall|i: int| 0 <= i < at ==> #[trigger] now[i] == was[i]
                &&& forall|i: int| at <= i < now.len() ==> #[trigger] now[i] == was[i + 1]
            }
        }),
{
}

/// Where no event is selected, or it is not there, or it repeats, nothing is deleted.
pub proof fn law_nothing_else_is_deleted(c: CalendarView)
    requires
        match c.sel_event {
            None => true,
            Some(at) => !c.events.contains_key(c.selected) || at < 0 || at
                >= c.events[c.selected].len() || c.events[c.selected][at].recurring,
        },
    ensures
        !crate::calendar::can_delete(c),
        ({
            let d = crate::calendar::after_delete(c);
            &&& is_elsewhere_same(c, d)
            &&& d.input == c.input
            &&& d.events == c.events
            &&& d.sel_event is None
        }),
{
}

// ── Typing ────────────────────────────────────────────────────────────────

/// Whether an event comes later in its day than another: at a later time, or at none where the
/// other has one.
pub open spec fn is_later(a: EventView, b: EventView) -> bool {
    match (a.time, b.time) {
        (None, Some(_)) => true,
        (Some((h, m)), Some((i, n))) => h > i || (h == i && m > n),
        _ => false,
    }
}

/// Whether events stand in the order of their times, untimed ones last.
pub open spec fn is_in_order(list: Seq<EventView>) -> bool {
    forall|i: int, j: int|
        0 <= i < j < list.len() ==> !is_later(#[trigger] list[i], #[trigger] list[j])
}

proof fn lemma_rank(a: EventView, b: EventView)
    ensures
        is_later(a, b) <==> crate::agenda::rank(a) > crate::agenda::rank(b),
{
}

proof fn lemma_order(list: Seq<EventView>)
    ensures
        is_in_order(list) <==> crate::agenda::in_rank_order(list),
{
    if is_in_order(list) {
        assert forall|i: int, j: int| 0 <= i <= j < list.len() implies crate::agenda::rank(
            #[trigger] list[i],
        ) <= crate::agenda::rank(#[trigger] list[j]) by {
            if i < j {
                assert(!is_later(list[i], list[j]));
                lemma_rank(list[i], list[j]);
            }
        }
    }
    if crate::agenda::in_rank_order(list) {
        assert forall|i: int, j: int| 0 <= i < j < list.len() implies !is_later(
            #[trigger] list[i],
            #[trigger] list[j],
        ) by {
            assert(crate::agenda::rank(list[i]) <= crate::agenda::rank(list[j]));
            lemma_rank(list[i], list[j]);
        }
    }
}

/// An event that was typed is added to the selected day, behind those that are not later and
/// before those that are; these stay as they were, in their order. It has neither an identity nor
/// a mark, and does not repeat. Every other day stays as it was, and nothing is being typed any
/// more.
pub proof fn law_typed_event_is_added(
    c: CalendarView,
    raw: Seq<char>,
    time: Option<(u32, u32)>,
    title: Seq<char>,
)
    requires
        c.input == Some(raw),
        crate::agenda::typed(raw) == Some((time, title)),
        is_in_order(crate::agenda::list_on(c.events, c.selected)),
    ensures
        ({
            let d = crate::calendar::after_commit(c);
            let e = EventView { time, title, uid: None, source: None, recurring: false };
            let was = if c.events.contains_key(c.selected) {
                c.events[c.selected]
            } else {
                Seq::empty()
            };
            &&& is_elsewhere_same(c, d)
            &&& d.input is None
            &&& d.sel_event == c.sel_event
            &&& is_same_but(c.events, d.events, c.selected)
            &&& d.events.contains_key(c.selected)
            &&& is_added_to(was, e, d.events[c.selected])
        }),
{
    let e = EventView { time, title, uid: None, source: None, recurring: false };
    let was = crate::agenda::list_on(c.events, c.selected);
    let d = crate::calendar::after_commit(c);
    lemma_order(was);
    let at = lemma_place(was, e);
    lemma_added(was, e, at);
    assert(is_added(was, e, at, d.events[c.selected]));
    assert(is_added_to(was, e, d.events[c.selected]));
}

/// Whether a list is another with an event added in its place.
pub open spec fn is_added_to(was: Seq<EventView>, e: EventView, now: Seq<EventView>) -> bool {
    exists|at: int| #[trigger] is_added(was, e, at, now)
}

/// Whether a list is another with an event added at a place: behind those that are not later, and
/// before those that are.
pub open spec fn is_added(
    was: Seq<EventView>,
    e: EventView,
    at: int,
    now: Seq<EventView>,
) -> bool {
    &&& 0 <= at <= was.len()
    &&& now.len() == was.len() + 1
    &&& now[at] == e
    &&& forall|i: int| 0 <= i < at ==> #[trigger] now[i] == was[i] && !is_later(was[i], e)
    &&& forall|i: int| at < i < now.len() ==> #[trigger] now[i] == was[i - 1] && is_later(now[i], e)
}

proof fn lemma_place(was: Seq<EventView>, e: EventView) -> (at: int)
    requires
        is_in_order(was),
    ensures
        0 <= at <= was.len(),
        forall|i: int| 0 <= i < at ==> !is_later(#[trigger] was[i], e),
        forall|i: int| at <= i < was.len() ==> is_later(#[trigger] was[i], e),
    decreases was.len(),
{
    if was.len() == 0 {
        0
    } else if !is_later(was.last(), e) {
        assert forall|i: int| 0 <= i < was.len() implies !is_later(#[trigger] was[i], e) by {
            lemma_rank(was[i], e);
            lemma_rank(was.last(), e);
            if i < was.len() - 1 {
                assert(!is_later(was[i], was[was.len() - 1]));
                lemma_rank(was[i], was.last());
            }
        }
        was.len() as int
    } else {
        let rest = was.drop_last();
        assert(is_in_order(rest)) by {
            assert forall|i: int, j: int| 0 <= i < j < rest.len() implies !is_later(
                #[trigger] rest[i],
                #[trigger] rest[j],
            ) by {
                assert(!is_later(was[i], was[j]));
            }
        }
        let at = lemma_place(rest, e);
        assert forall|i: int| 0 <= i < at implies !is_later(#[trigger] was[i], e) by {
            assert(rest[i] == was[i]);
        }
        assert forall|i: int| at <= i < was.len() implies is_later(#[trigger] was[i], e) by {
            if i < rest.len() {
                assert(rest[i] == was[i]);
            }
        }
        at
    }
}

proof fn lemma_added(was: Seq<EventView>, e: EventView, at: int)
    requires
        is_in_order(was),
        0 <= at <= was.len(),
        forall|i: int| 0 <= i < at ==> !is_later(#[trigger] was[i], e),
        forall|i: int| at <= i < was.len() ==> is_later(#[trigger] was[i], e),
    ensures
        crate::agenda::arranged(was.push(e)) == was.insert(at, e),
{
    reveal(Seq::filter);
    let now = was.insert(at, e);
    let (head, tail) = (was.take(at), was.skip(at));
    assert(was =~= head + tail);
    assert(now =~= head.push(e) + tail);
    assert(crate::agenda::in_rank_order(now)) by {
        lemma_order(now);
        assert forall|i: int, j: int| 0 <= i < j < now.len() implies !is_later(
            #[trigger] now[i],
            #[trigger] now[j],
        ) by {
            let x = if i < at {
                i
            } else {
                i - 1
            };
            let y = if j < at {
                j
            } else {
                j - 1
            };
            if i != at && j != at {
                assert(now[i] == was[x] && now[j] == was[y]);
                assert(!is_later(was[x], was[y]));
            } else if j == at {
                assert(now[i] == was[i]);
                assert(!is_later(was[i], e));
            } else {
                assert(now[j] == was[j - 1]);
                assert(is_later(was[j - 1], e));
                lemma_rank(was[j - 1], e);
                lemma_rank(e, was[j - 1]);
            }
        }
    }
    assert forall|k: int| #[trigger]
        crate::agenda::of_rank(was.push(e), k) == crate::agenda::of_rank(now, k) by {
        let p = |x: EventView| crate::agenda::rank(x) == k;
        Seq::filter_distributes_over_add(head, tail, p);
        Seq::filter_distributes_over_add(head.push(e), tail, p);
        assert(head.push(e).drop_last() =~= head);
        assert(was.push(e).drop_last() =~= was);
        if k == crate::agenda::rank(e) {
            assert forall|i: int| 0 <= i < tail.len() implies !p(#[trigger] tail[i]) by {
                assert(tail[i] == was[at + i]);
                assert(is_later(was[at + i], e));
                lemma_rank(was[at + i], e);
            }
            tail.lemma_all_neg_filter_empty(p);
            assert(tail.filter(p) =~= Seq::empty());
            assert(head.filter(p) + tail.filter(p) =~= head.filter(p));
            assert(head.push(e).filter(p) + tail.filter(p) =~= head.filter(p).push(e));
        }
    }
    assert(crate::agenda::is_arranged(was.push(e), now));
    crate::agenda_laws::lemma_arranged(was.push(e));
    crate::agenda::lemma_arranged_once(was.push(e), crate::agenda::arranged(was.push(e)), now);
}

/// What was typed and is no event adds nothing; nor is there anything to add where nothing is
/// being typed.
pub proof fn law_nothing_typed_adds_nothing(c: CalendarView)
    requires
        c.input matches Some(raw) ==> crate::agenda::typed(raw) is None,
    ensures
        ({
            let d = crate::calendar::after_commit(c);
            is_elsewhere_same(c, d) && d.events == c.events && d.sel_event == c.sel_event
                && d.input is None
        }),
{
}

/// What is typed is an event exactly where it is more than white space. Where its first word is a
/// time, that is the time of the event and the rest, without white space around it, its title;
/// where nothing is left the event is untitled. Else the event has no time, and all of it is the
/// title.
pub proof fn law_typed_events_are_read(raw: Seq<char>, k: int)
    requires
        ({
            let s = crate::text::trimmed(raw);
            &&& 0 <= k <= s.len()
            &&& forall|i: int| 0 <= i < k ==> !crate::text::is_white_space(#[trigger] s[i])
            &&& k < s.len() ==> crate::text::is_white_space(s[k])
        }),
    ensures
        ({
            let s = crate::text::trimmed(raw);
            let word = s.take(k);
            let rest = if k < s.len() {
                crate::text::trimmed(s.skip(k + 1))
            } else {
                Seq::empty()
            };
            match crate::agenda::typed(raw) {
                None => s.len() == 0,
                Some((time, title)) => {
                    &&& s.len() > 0
                    &&& time == crate::agenda::time_read(word) || (time
                        == crate::agenda::time_read(s) && crate::agenda::time_read(word) is None)
                    &&& crate::agenda::time_read(word) is Some ==> title == if rest.len() > 0 {
                        rest
                    } else {
                        "(untitled)"@
                    }
                    &&& time is None ==> title == s
                    &&& crate::agenda::time_read(word) is None && crate::agenda::time_read(s) is None
                        ==> time is None
                    &&& crate::agenda::time_read(word) is Some ==> time is Some
                },
            }
        }),
{
    let s = crate::text::trimmed(raw);
    lemma_space(s, k);
    if k == s.len() {
        assert(s.take(k) =~= s);
    }
}

proof fn lemma_space(s: Seq<char>, k: int)
    requires
        0 <= k <= s.len(),
        forall|i: int| 0 <= i < k ==> !crate::text::is_white_space(#[trigger] s[i]),
        k < s.len() ==> crate::text::is_white_space(s[k]),
    ensures
        crate::agenda::find_space(s) == k,
    decreases s.len(),
{
    if k > 0 {
        let rest = s.drop_first();
        assert(!crate::text::is_white_space(s[0]));
        assert forall|i: int| 0 <= i < k - 1 implies !crate::text::is_white_space(
            #[trigger] rest[i],
        ) by {
            assert(rest[i] == s[i + 1]);
        }
        lemma_space(rest, k - 1);
    }
}

/// A time is read out of digits, a colon and digits exactly where the first are the hour of a day
/// and the second the minute of an hour, however many digits there are. The hour may not have a
/// sign.
pub proof fn law_times_are_read(h: Seq<char>, m: Seq<char>)
    requires
        !h.contains(':'),
    ensures
        crate::agenda::time_read(h + seq![':'] + m) == match (
            crate::text::number(h),
            crate::text::number(m),
        ) {
            (Some(a), Some(b)) => if a < 24 && b < 60 && h[0] != '+' {
                Some((a, b))
            } else {
                None
            },
            _ => None,
        },
{
    let tok = h + seq![':'] + m;
    assert forall|i: int| 0 <= i < h.len() implies tok[i] != ':' by {
        assert(h.contains(h[i]));
    }
    crate::text::lemma_find_is(tok, ':', h.len() as int);
    assert(tok.take(h.len() as int) =~= h);
    assert(tok.skip((h.len() + 1) as int) =~= m);
    if crate::text::number(h) is Some {
        assert(h.len() > 0) by {
            if h.len() == 0 {
                assert(crate::text::number(h) is None);
            }
        }
        assert(tok[0] == h[0]);
    }
}

/// A text without a colon is no time.
pub proof fn law_no_time_without_a_colon(tok: Seq<char>)
    requires
        !tok.contains(':'),
    ensures
        crate::agenda::time_read(tok) is None,
{
    assert forall|i: int| 0 <= i < tok.len() implies tok[i] != ':' by {
        assert(tok.contains(tok[i]));
    }
    crate::text::lemma_find_is(tok, ':', tok.len() as int);
}

// ── Keys and the pointer ──────────────────────────────────────────────────

/// Typing adds what is printable to what was typed, and the backspace takes the last character
/// off. Escape gives up what was typed. None of these changes an event or the selection.
pub proof fn law_typing(c: CalendarView, key: Key, text: Option<Seq<char>>)
    requires
        c.input is Some,
        !(key is Enter),
    ensures
        ({
            let d = crate::calendar::after_input_key(c, key, text);
            let was = c.input->0;
            &&& is_elsewhere_same(c, d)
            &&& d.events == c.events
            &&& d.sel_event == c.sel_event
            &&& key is Escape ==> d.input is None
            &&& key is Backspace ==> d.input == Some(
                if was.len() > 0 {
                    was.take(was.len() - 1)
                } else {
                    was
                },
            )
            &&& !(key is Escape) && !(key is Backspace) ==> d.input == Some(
                match text {
                    Some(t) => was + t.filter(|ch: char| !crate::text::is_control(ch)),
                    None => was,
                },
            )
        }),
{
    let was = c.input->0;
    if was.len() > 0 {
        assert(was.drop_last() =~= was.take(was.len() - 1));
    }
}

/// While nothing is being typed, the arrows to the side move the selection by a day and the
/// others by a week, the page keys move it by a month and the brackets by a year, back for the
/// keys that point back.
pub proof fn law_keys_move(c: CalendarView, d: CalendarView, key: Key)
    requires
        crate::calendar::is_after_key(c, key, d),
    ensures
        key is ArrowLeft ==> crate::calendar::is_shifted(c, -1, d),
        key is ArrowRight ==> crate::calendar::is_shifted(c, 1, d),
        key is ArrowUp ==> crate::calendar::is_shifted(c, -7, d),
        key is ArrowDown ==> crate::calendar::is_shifted(c, 7, d),
        key is PageUp ==> d == crate::calendar::after_shift_months(c, -1),
        key is PageDown ==> d == crate::calendar::after_shift_months(c, 1),
        key matches Key::Character(s) ==> {
            &&& s@ == "["@ ==> d == crate::calendar::after_shift_months(c, -12)
            &&& s@ == "]"@ ==> d == crate::calendar::after_shift_months(c, 12)
            &&& s@ == "t"@ ==> d.selected == c.today && d.view == (c.today.year, c.today.month)
            &&& s@ == "n"@ ==> d.input == Some(Seq::<char>::empty()) && d.events == c.events
            &&& s@ == "d"@ || s@ == "x"@ ==> d == crate::calendar::after_delete(c)
            &&& s@ == "q"@ ==> d == c
        },
        key is Home ==> d.selected == c.today && d.view == (c.today.year, c.today.month),
        key is Enter ==> d.input == Some(Seq::<char>::empty()) && d.events == c.events,
        key is Delete ==> d == crate::calendar::after_delete(c),
        key is Escape || key is Other || key is Backspace ==> d == c,
{
    reveal_strlit("t");
    reveal_strlit("n");
    reveal_strlit("d");
    reveal_strlit("x");
    reveal_strlit("[");
    reveal_strlit("]");
    reveal_strlit("q");
    assert("t"@[0] == 't' && "n"@[0] == 'n' && "d"@[0] == 'd' && "x"@[0] == 'x' && "["@[0] == '['
        && "]"@[0] == ']' && "q"@[0] == 'q');
}

/// No key but those that delete and no click changes an event, and none but those that begin a
/// new event begins one.
pub proof fn law_browsing_changes_no_event(c: CalendarView, d: CalendarView, key: Key, target: Target)
    ensures
        crate::calendar::is_after_key(c, key, d) && crate::calendar::action_of(key)
            != Action::Delete ==> d.events == c.events,
        crate::calendar::is_after_key(c, key, d) && crate::calendar::action_of(key)
            != Action::Type ==> d.input == c.input,
        crate::calendar::after_click(c, target).events == c.events,
        crate::calendar::after_click(c, target).input == c.input,
{
}

/// A click on a day selects it and shows its month; on an event of the list, selects it; on the
/// buttons, moves by a month or goes to today. Selecting a day selects none of its events.
pub proof fn law_clicks(c: CalendarView, target: Target)
    ensures
        ({
            let d = crate::calendar::after_click(c, target);
            match target {
                Target::Day(date) => d.selected == date && d.view == (date.year, date.month)
                    && d.sel_event is None,
                Target::Today => d.selected == c.today && d.view == (c.today.year, c.today.month)
                    && d.sel_event is None,
                Target::List(Some(i)) => d.sel_event == Some(i as int) && d.selected == c.selected
                    && d.view == c.view,
                Target::List(None) => d.sel_event is None && d.selected == c.selected && d.view
                    == c.view,
                Target::Previous => d == crate::calendar::after_shift_months(c, -1),
                Target::Following => d == crate::calendar::after_shift_months(c, 1),
                Target::Elsewhere => d == c,
            }
        }),
{
}

/// Moving the selection by days selects the day so many days on and shows its month; beyond the
/// calendar nothing changes. No event is changed.
pub proof fn law_days_are_moved(c: CalendarView, delta: int, d: CalendarView, there: Date)
    requires
        crate::calendar::is_shifted(c, delta, d),
        crate::date::valid_date(there),
        crate::date::day_number(there) == crate::date::day_number(c.selected) + delta,
    ensures
        d.selected == there,
        d.view == (there.year, there.month),
        d.sel_event is None,
        d.events == c.events,
        d.input == c.input,
{
    crate::date::lemma_number_bounds(there);
    crate::date::lemma_numbers_in_order(there, d.selected);
}

/// Moving by months shows the month so many months on and selects the same day of it, or its last
/// where it is shorter. No event is changed.
pub proof fn law_months_are_moved(c: CalendarView, delta: int, year: int, month: int)
    requires
        1 <= month <= 12,
        year * 12 + month == c.view.0 * 12 + c.view.1 + delta,
        crate::date::MIN_YEAR < year < crate::date::MAX_YEAR,
        1 <= c.selected.day,
    ensures
        ({
            let d = crate::calendar::after_shift_months(c, delta);
            let len = crate::date::month_len(year, month);
            &&& d.view == (year as i32, month as u32)
            &&& d.selected.year == year
            &&& d.selected.month == month
            &&& d.selected.day == if c.selected.day <= len {
                c.selected.day as int
            } else {
                len
            }
            &&& d.sel_event is None
            &&& d.events == c.events
            &&& d.input == c.input
        }),
{
    let n = c.view.0 * 12 + c.view.1 - 1 + delta;
    assert(n == year * 12 + (month - 1));
    assert(n / 12 == year && n % 12 == month - 1);
    let next = crate::month::month_plus(year, month, 1);
    assert(next.0 == year || next.0 == year + 1);
}

// ── The file ──────────────────────────────────────────────────────────────

/// The event that a record is: at the time it writes, where that is a time of day, and with its
/// title, its identity, its mark and whether it repeats.
pub open spec fn is_event_of(e: EventView, r: RecordView) -> bool {
    &&& e.title == r.title
    &&& e.uid == r.uid
    &&& e.source == r.source
    &&& e.recurring == r.recurring
    &&& e.time == match r.time {
        Some(t) => crate::agenda::time_read(t),
        None => None,
    }
}

/// The events of a day are those of the records whose date it is, no more and no fewer, in the
/// order of the file.
pub proof fn law_records_are_events(records: Seq<RecordView>, date: Date)
    ensures
        ({
            let on = records.filter(
                |r: RecordView| crate::date::date_read(r.date) == Some(date),
            );
            let events = crate::agenda::events_for(records, date);
            &&& events.len() == on.len()
            &&& forall|i: int| 0 <= i < events.len() ==> is_event_of(#[trigger] events[i], on[i])
        }),
    decreases records.len(),
{
    reveal(Seq::filter);
    if records.len() > 0 {
        law_records_are_events(records.drop_last(), date);
    }
}

/// What is loaded of a file: a day is there exactly where a record has its date, its events stand
/// in the order of their times, and at each time stand those of the records with the date and the
/// time, in the order of the file.
pub proof fn law_days_are_loaded(records: Seq<RecordView>, date: Date, time: Option<(u32, u32)>)
    ensures
        ({
            let events = crate::agenda::events_for(records, date);
            let agenda = crate::agenda::agenda_of(records);
            let then = |e: EventView| e.time == time;
            &&& agenda.contains_key(date) <==> events.len() > 0
            &&& agenda.contains_key(date) ==> {
                &&& is_in_order(agenda[date])
                &&& agenda[date].len() == events.len()
                &&& agenda[date].filter(then) == events.filter(then)
            }
        }),
{
    let events = crate::agenda::events_for(records, date);
    let agenda = crate::agenda::agenda_of(records);
    if events.len() > 0 {
        let list = agenda[date];
        crate::agenda_laws::lemma_arranged(events);
        lemma_order(list);
        let then = |e: EventView| e.time == time;
        let k = match time {
            Some((h, m)) => h * 0x1_0000_0000 + m,
            None => 0x1_0000_0000_0000_0000int,
        };
        let p = |e: EventView| crate::agenda::rank(e) == k;
        assert(crate::agenda::of_rank(events, k) == crate::agenda::of_rank(list, k));
        lemma_same_filter(events, then, p, time, k);
        lemma_same_filter(list, then, p, time, k);
        lemma_same_len(events, list);
    }
}

proof fn lemma_same_filter(
    list: Seq<EventView>,
    then: spec_fn(EventView) -> bool,
    p: spec_fn(EventView) -> bool,
    time: Option<(u32, u32)>,
    k: int,
)
    requires
        then == (|e: EventView| e.time == time),
        p == (|e: EventView| crate::agenda::rank(e) == k),
        k == match time {
            Some((h, m)) => h * 0x1_0000_0000 + m,
            None => 0x1_0000_0000_0000_0000int,
        },
    ensures
        list.filter(then) == list.filter(p),
    decreases list.len(),
{
    reveal(Seq::filter);
    if list.len() > 0 {
        lemma_same_filter(list.drop_last(), then, p, time, k);
        assert(then(list.last()) == p(list.last()));
    }
}

/// Arranging keeps the number of events.
proof fn lemma_same_len(before: Seq<EventView>, after: Seq<EventView>)
    requires
        crate::agenda::is_arranged(before, after),
    ensures
        before.len() == after.len(),
    decreases before.len(),
{
    reveal(Seq::filter);
    if before.len() == 0 {
        if after.len() > 0 {
            let k = crate::agenda::rank(after.last());
            assert(crate::agenda::of_rank(before, k) == crate::agenda::of_rank(after, k));
            assert(crate::agenda::of_rank(after, k).last() == after.last());
        }
    } else {
        let e = before.last();
        let k = crate::agenda::rank(e);
        let p = |x: EventView| crate::agenda::rank(x) == k;
        assert(crate::agenda::of_rank(before, k) == crate::agenda::of_rank(after, k));
        assert(before.filter(p).last() == e);
        let at = lemma_last_of_rank(after, p);
        let less = after.remove(at);
        assert(crate::agenda::is_arranged(before.drop_last(), less)) by {
            assert forall|i: int, j: int| 0 <= i <= j < less.len() implies crate::agenda::rank(
                #[trigger] less[i],
            ) <= crate::agenda::rank(#[trigger] less[j]) by {
                let x = if i < at {
                    i
                } else {
                    i + 1
                };
                let y = if j < at {
                    j
                } else {
                    j + 1
                };
                assert(less[i] == after[x] && less[j] == after[y]);
                assert(crate::agenda::rank(after[x]) <= crate::agenda::rank(after[y]));
            }
            assert forall|j: int| #[trigger]
                crate::agenda::of_rank(before.drop_last(), j) == crate::agenda::of_rank(
                    less,
                    j,
                ) by {
                let q = |x: EventView| crate::agenda::rank(x) == j;
                assert(crate::agenda::of_rank(before, j) == crate::agenda::of_rank(after, j));
                let (head, tail) = (after.take(at), after.skip(at + 1));
                assert(after =~= head.push(after[at]) + tail);
                assert(less =~= head + tail);
                Seq::filter_distributes_over_add(head.push(after[at]), tail, q);
                Seq::filter_distributes_over_add(head, tail, q);
                assert(head.push(after[at]).drop_last() =~= head);
                if j == k {
                    assert forall|i: int| 0 <= i < tail.len() implies !q(#[trigger] tail[i]) by {
                        assert(tail[i] == after[at + 1 + i]);
                    }
                    tail.lemma_all_neg_filter_empty(q);
                    assert(tail.filter(q) =~= Seq::empty());
                    assert(head.filter(q).push(after[at]) + tail.filter(q) =~= head.filter(q).push(
                        after[at],
                    ));
                    assert(head.filter(q) + tail.filter(q) =~= head.filter(q));
                    assert(before.filter(q) == before.drop_last().filter(q).push(e));
                    assert(before.drop_last().filter(q) =~= before.filter(q).drop_last());
                    assert(head.filter(q) =~= after.filter(q).drop_last());
                }
            }
        }
        lemma_same_len(before.drop_last(), less);
    }
}

proof fn lemma_last_of_rank(list: Seq<EventView>, p: spec_fn(EventView) -> bool) -> (at: int)
    requires
        list.filter(p).len() > 0,
    ensures
        0 <= at < list.len(),
        p(list[at]),
        forall|i: int| at < i < list.len() ==> !p(#[trigger] list[i]),
    decreases list.len(),
{
    reveal(Seq::filter);
    if p(list.last()) {
        list.len() - 1
    } else {
        let at = lemma_last_of_rank(list.drop_last(), p);
        assert forall|i: int| at < i < list.len() implies !p(#[trigger] list[i]) by {
            if i < list.len() - 1 {
                assert(list.drop_last()[i] == list[i]);
            }
        }
        at
    }
}

/// What is saved are the events of all days, day by day and in the order of each day: each with
/// its date, its time as hours and minutes of two digits, its title, its identity, its mark and
/// whether it repeats.
pub proof fn law_days_are_saved(days: Seq<(Date, Seq<EventView>)>)
    ensures
        crate::agenda::all_records(days) == days.map_values(
            |d: (Date, Seq<EventView>)|
                d.1.map_values(
                    |e: EventView|
                        RecordView {
                            date: crate::date::date_text(d.0),
                            time: match e.time {
                                Some((h, m)) => Some(
                                    crate::text::padded(h as nat, 2) + ":"@ + crate::text::padded(
                                        m as nat,
                                        2,
                                    ),
                                ),
                                None => None,
                            },
                            title: e.title,
                            uid: e.uid,
                            source: e.source,
                            recurring: e.recurring,
                        },
                ),
        ).flatten(),
    decreases days.len(),
{
    let save = |d: (Date, Seq<EventView>)|
        d.1.map_values(
            |e: EventView|
                RecordView {
                    date: crate::date::date_text(d.0),
                    time: match e.time {
                        Some((h, m)) => Some(
                            crate::text::padded(h as nat, 2) + ":"@ + crate::text::padded(
                                m as nat,
                                2,
                            ),
                        ),
                        None => None,
                    },
                    title: e.title,
                    uid: e.uid,
                    source: e.source,
                    recurring: e.recurring,
                },
        );
    reveal_strlit(":");
    assert(":"@ =~= seq![':']);
    if days.len() > 0 {
        let rest = days.drop_last();
        law_days_are_saved(rest);
        assert(days.map_values(save) =~= rest.map_values(save).push(save(days.last())));
        rest.map_values(save).lemma_flatten_push(save(days.last()));
        assert(save(days.last()) =~= crate::agenda::day_records(days.last().0, days.last().1));
    } else {
        assert(days.map_values(save).flatten() =~= Seq::<RecordView>::empty());
    }
}

// ── The grid ──────────────────────────────────────────────────────────────

/// All events of a day are shown where there are lines enough; else all lines but the last are
/// events, and it says how many more there are.
pub proof fn law_lines_are_used(lines: int, events: int)
    requires
        0 <= events,
        0 < lines,
    ensures
        ({
            let shown = crate::display::shown_count(lines, events);
            if events <= lines {
                shown == events
            } else {
                shown + 1 == lines
            }
        }),
{
}

} // verus!
