//! The events of each day, as the calendar shows them.
use vstd::prelude::*;

use crate::date::{is_earlier, read_date, write_date, Date};
use crate::mirror::write_clock;
use crate::order::{stable_sort, Ranked};
use crate::record::{copy_opt, EventRecord};
use crate::text::{parse_number, split_once, to_chars, trim, white_space};

verus! {

/// One event on a day. `time` is the hour and the minute; untimed events come after timed ones.
/// What the sync wrote rides along, so that saving never strips it.
#[derive(Debug)]
pub struct Event {
    pub time: Option<(u32, u32)>,
    pub title: String,
    pub uid: Option<String>,
    pub source: Option<String>,
    pub recurring: bool,
}

#[verifier::ext_equal]
pub struct EventView {
    pub time: Option<(u32, u32)>,
    pub title: Seq<char>,
    pub uid: Option<Seq<char>>,
    pub source: Option<Seq<char>>,
    pub recurring: bool,
}

impl View for Event {
    type V = EventView;

    open spec fn view(&self) -> EventView {
        EventView {
            time: self.time,
            title: self.title@,
            uid: crate::text::opt_text(self.uid),
            source: crate::text::opt_text(self.source),
            recurring: self.recurring,
        }
    }
}

/// What a list of events says.
pub open spec fn event_views(events: Seq<Event>) -> Seq<EventView> {
    Seq::new(events.len(), |i: int| events[i]@)
}

// ── Order ─────────────────────────────────────────────────────────────────

/// Where an event stands in its day: by hour and minute, untimed events last.
pub open spec fn rank(e: EventView) -> int {
    match e.time {
        Some((h, m)) => h * 0x1_0000_0000 + m,
        None => 0x1_0000_0000_0000_0000int,
    }
}

impl Ranked for Event {
    open spec fn at_most(&self, other: &Self) -> bool {
        rank(self@) <= rank(other@)
    }

    proof fn total(a: &Self, b: &Self) {
    }

    proof fn transitive(a: &Self, b: &Self, c: &Self) {
    }

    fn is_at_most(&self, other: &Self) -> (r: bool) {
        match (self.time, other.time) {
            (_, None) => true,
            (None, Some(_)) => false,
            (Some((h, m)), Some((i, n))) => h < i || (h == i && m <= n),
        }
    }
}

/// The events of a rank, in order.
pub open spec fn of_rank(events: Seq<EventView>, k: int) -> Seq<EventView> {
    events.filter(|e: EventView| rank(e) == k)
}

/// Whether events stand in the order of their ranks.
pub open spec fn in_rank_order(events: Seq<EventView>) -> bool {
    forall|i: int, j: int|
        0 <= i <= j < events.len() ==> rank(#[trigger] events[i]) <= rank(#[trigger] events[j])
}

/// Whether `after` is `before` in the order of the ranks, where events of the same rank keep
/// their order.
pub open spec fn is_arranged(before: Seq<EventView>, after: Seq<EventView>) -> bool {
    in_rank_order(after) && forall|k: int| #[trigger] of_rank(before, k) == of_rank(after, k)
}

/// Events in the order of their ranks, where those of the same rank keep their order.
pub open spec fn arranged(events: Seq<EventView>) -> Seq<EventView> {
    choose|after: Seq<EventView>| is_arranged(events, after)
}

/// There is one way to arrange events.
pub proof fn lemma_arranged_once(before: Seq<EventView>, a: Seq<EventView>, b: Seq<EventView>)
    requires
        is_arranged(before, a),
        is_arranged(before, b),
    ensures
        a == b,
{
    assert forall|k: int| #[trigger] of_rank(a, k) == of_rank(b, k) by {
        assert(of_rank(before, k) == of_rank(a, k));
    }
    lemma_same_ranks(a, b);
}

proof fn lemma_same_ranks(a: Seq<EventView>, b: Seq<EventView>)
    requires
        in_rank_order(a),
        in_rank_order(b),
        forall|k: int| #[trigger] of_rank(a, k) == of_rank(b, k),
    ensures
        a == b,
    decreases a.len(),
{
    reveal(Seq::filter);
    if a.len() == 0 {
        if b.len() > 0 {
            let k = rank(b.last());
            assert(of_rank(b, k).len() > 0);
            assert(of_rank(a, k).len() == 0);
        }
        assert(a =~= b);
    } else {
        let k = rank(a.last());
        assert(of_rank(a, k).last() == a.last());
        assert(of_rank(b, k).len() > 0);
        if b.len() == 0 {
            assert(of_rank(b, k).len() == 0);
        }
        let m = rank(b.last());
        assert(of_rank(b, m).last() == b.last());
        if m > k {
            lemma_none_of_rank(a, m);
        } else if k > m {
            lemma_none_of_rank(b, k);
        }
        assert(a.last() == b.last());
        assert forall|j: int| #[trigger] of_rank(a.drop_last(), j) == of_rank(
            b.drop_last(),
            j,
        ) by {
            assert(of_rank(a, j) == of_rank(b, j));
            if j == k {
                assert(of_rank(a, j).drop_last() =~= of_rank(a.drop_last(), j));
                assert(of_rank(b, j).drop_last() =~= of_rank(b.drop_last(), j));
            }
        }
        lemma_same_ranks(a.drop_last(), b.drop_last());
        assert(a =~= a.drop_last().push(a.last()));
        assert(b =~= b.drop_last().push(b.last()));
    }
}

/// No event has a rank above that of the last.
proof fn lemma_none_of_rank(a: Seq<EventView>, k: int)
    requires
        in_rank_order(a),
        a.len() > 0,
        k > rank(a.last()),
    ensures
        of_rank(a, k).len() == 0,
{
    a.lemma_all_neg_filter_empty(|e: EventView| rank(e) == k);
}

/// What is left of a list is, in views, what is left of its views.
proof fn lemma_filter_views(events: Seq<Event>, p: spec_fn(Event) -> bool, k: int)
    requires
        forall|i: int| 0 <= i < events.len() ==> p(#[trigger] events[i]) == (rank(events[i]@) == k),
    ensures
        event_views(events.filter(p)) == of_rank(event_views(events), k),
    decreases events.len(),
{
    reveal(Seq::filter);
    let views = event_views(events);
    if events.len() > 0 {
        let rest = events.drop_last();
        lemma_filter_views(rest, p, k);
        assert(event_views(rest) =~= views.drop_last());
        assert(views.last() == events.last()@);
        if p(events.last()) {
            assert(event_views(events.filter(p)) =~= event_views(rest.filter(p)).push(
                events.last()@,
            ));
        }
    } else {
        assert(event_views(events.filter(p)) =~= of_rank(views, k));
    }
}

/// Puts the events of a day into order: by time, untimed events last. Events at the same time
/// keep their order.
pub fn sort_events(events: &mut Vec<Event>)
    ensures
        is_arranged(event_views(old(events)@), event_views(final(events)@)),
        event_views(final(events)@) == arranged(event_views(old(events)@)),
{
    let ghost before = events@;
    stable_sort(events);
    proof {
        let after = events@;
        let (a, b) = (event_views(before), event_views(after));
        assert(in_rank_order(b)) by {
            assert forall|i: int, j: int| 0 <= i <= j < b.len() implies rank(#[trigger] b[i])
                <= rank(#[trigger] b[j]) by {
                assert(after[i].at_most(&after[j]));
            }
        }
        assert forall|k: int| #[trigger] of_rank(a, k) == of_rank(b, k) by {
            if exists|i: int| 0 <= i < after.len() && rank(#[trigger] after[i]@) == k {
                let i = choose|i: int| 0 <= i < after.len() && rank(#[trigger] after[i]@) == k;
                lemma_same_place(before, after, after[i]);
            } else if exists|i: int| 0 <= i < before.len() && rank(#[trigger] before[i]@) == k {
                let i = choose|i: int| 0 <= i < before.len() && rank(#[trigger] before[i]@) == k;
                lemma_same_place(before, after, before[i]);
            } else {
                assert forall|i: int| 0 <= i < a.len() implies rank(#[trigger] a[i]) != k by {
                    assert(rank(before[i]@) != k);
                }
                assert forall|i: int| 0 <= i < b.len() implies rank(#[trigger] b[i]) != k by {
                    assert(rank(after[i]@) != k);
                }
                a.lemma_all_neg_filter_empty(|e: EventView| rank(e) == k);
                b.lemma_all_neg_filter_empty(|e: EventView| rank(e) == k);
                assert(of_rank(a, k) =~= of_rank(b, k));
            }
        }
        assert(is_arranged(a, b));
        lemma_arranged_once(a, b, arranged(a));
    }
}

proof fn lemma_same_place(before: Seq<Event>, after: Seq<Event>, x: Event)
    requires
        crate::order::stably_rearranged(before, after),
    ensures
        of_rank(event_views(before), rank(x@)) == of_rank(event_views(after), rank(x@)),
{
    let p = |y: Event| crate::order::same_place(x, y);
    assert(crate::order::at_place(before, x) == crate::order::at_place(after, x));
    lemma_filter_views(before, p, rank(x@));
    lemma_filter_views(after, p, rank(x@));
}

// ── Typed events ──────────────────────────────────────────────────────────

/// The hour and the minute that a text writes, as `9:05` or `09:05`.
pub open spec fn time_read(tok: Seq<char>) -> Option<(u32, u32)> {
    match crate::when::clock_read(tok) {
        Some((h, m)) => if h < 24 && m < 60 && !(tok.len() > 0 && tok[0] == '+') {
            Some((h, m))
        } else {
            None
        },
        None => None,
    }
}

/// Reads an hour and a minute, as `9:05` or `09:05`.
pub fn parse_time(tok: &str) -> (t: Option<(u32, u32)>)
    ensures
        t == time_read(tok@),
{
    let chars = to_chars(tok);
    match split_once(tok, ':') {
        None => None,
        Some((h, m)) => match (parse_number(h), parse_number(m)) {
            (Some(h), Some(m)) => {
                if h < 24 && m < 60 && !(chars.len() > 0 && chars[0] == '+') {
                    Some((h, m))
                } else {
                    None
                }
            },
            _ => None,
        },
    }
}

/// The index of the first white space in `s`, or the length of `s` when there is none.
pub open spec fn find_space(s: Seq<char>) -> int
    decreases s.len(),
{
    if s.len() == 0 || crate::text::is_white_space(s[0]) {
        0
    } else {
        1 + find_space(s.drop_first())
    }
}

/// A title, or what stands for one that is empty.
pub open spec fn title_or_none(title: Seq<char>) -> Seq<char> {
    if title.len() == 0 {
        "(untitled)"@
    } else {
        title
    }
}

/// The time and the title of a typed event: a time before the first white space is the time of
/// the event, and the rest its title. Nothing is no event.
pub open spec fn typed(raw: Seq<char>) -> Option<(Option<(u32, u32)>, Seq<char>)> {
    let s = crate::text::trimmed(raw);
    let k = find_space(s);
    if s.len() == 0 {
        None
    } else if k < s.len() && time_read(s.take(k)) is Some {
        Some((time_read(s.take(k)), title_or_none(crate::text::trimmed(s.skip(k + 1)))))
    } else if time_read(s) is Some {
        Some((time_read(s), "(untitled)"@))
    } else {
        Some((None, s))
    }
}

fn title_of(title: &str) -> (s: String)
    ensures
        s@ == title_or_none(title@),
{
    if title.is_empty() {
        "(untitled)".to_owned()
    } else {
        title.to_owned()
    }
}

fn first_space(chars: &Vec<char>) -> (k: usize)
    ensures
        k == find_space(chars@),
        k <= chars@.len(),
{
    let mut k: usize = 0;
    assert(chars@.skip(0) =~= chars@);
    while k < chars.len() && !white_space(chars[k])
        invariant
            k <= chars@.len(),
            find_space(chars@) == k + find_space(chars@.skip(k as int)),
        decreases chars@.len() - k,
    {
        assert(chars@.skip(k as int)[0] == chars@[k as int]);
        assert(chars@.skip(k as int).drop_first() =~= chars@.skip(k + 1));
        k = k + 1;
    }
    assert(k < chars@.len() ==> chars@.skip(k as int)[0] == chars@[k as int]);
    k
}

/// A typed event: a leading time is its time, and the rest its title.
pub fn parse_event(raw: &str) -> (e: Option<Event>)
    ensures
        match e {
            Some(e) => typed(raw@) is Some && e@ == (EventView {
                time: (typed(raw@)->0).0,
                title: (typed(raw@)->0).1,
                uid: None,
                source: None,
                recurring: false,
            }),
            None => typed(raw@) is None,
        },
{
    let raw = trim(raw);
    if raw.is_empty() {
        return None;
    }
    let chars = to_chars(raw);
    let k = first_space(&chars);
    let mut time: Option<(u32, u32)> = None;
    let mut title = raw.to_owned();
    if k < chars.len() {
        let tok = raw.substring_char(0, k);
        assert(tok@ =~= raw@.take(k as int));
        time = parse_time(tok);
        if time.is_some() {
            let rest = raw.substring_char(k + 1, chars.len());
            assert(rest@ =~= raw@.skip(k + 1));
            title = title_of(trim(rest));
        }
    }
    if time.is_none() {
        time = parse_time(raw);
        if time.is_some() {
            title = "(untitled)".to_owned();
        }
    }
    Some(Event { time, title, uid: None, source: None, recurring: false })
}

// ── Days ──────────────────────────────────────────────────────────────────

/// The events by day.
pub struct Agenda {
    days: Vec<(Date, Vec<Event>)>,
}

/// Whether a time of day is one.
pub open spec fn valid_time(t: Option<(u32, u32)>) -> bool {
    match t {
        Some((h, m)) => h < 24 && m < 60,
        None => true,
    }
}

/// Whether days stand in the order of their dates, each with events, and these in the order of
/// their times.
pub open spec fn valid_days(days: Seq<(Date, Seq<EventView>)>) -> bool {
    &&& forall|i: int, j: int|
        0 <= i < j < days.len() ==> crate::date::earlier(
            (#[trigger] days[i]).0,
            (#[trigger] days[j]).0,
        )
    &&& forall|i: int|
        0 <= i < days.len() ==> {
            &&& crate::date::valid_date((#[trigger] days[i]).0)
            &&& days[i].1.len() > 0
            &&& in_rank_order(days[i].1)
        }
    &&& forall|i: int, k: int|
        0 <= i < days.len() && 0 <= k < days[i].1.len() ==> valid_time(
            (#[trigger] days[i].1[k]).time,
        )
}

/// Whether there are events on a date.
pub open spec fn has_day(days: Seq<(Date, Seq<EventView>)>, date: Date) -> bool {
    exists|i: int| 0 <= i < days.len() && (#[trigger] days[i]).0 == date
}

/// The events on a date.
pub open spec fn events_on(days: Seq<(Date, Seq<EventView>)>, date: Date) -> Seq<EventView> {
    if has_day(days, date) {
        days[choose|i: int| 0 <= i < days.len() && (#[trigger] days[i]).0 == date].1
    } else {
        Seq::empty()
    }
}

/// The events by date.
pub open spec fn by_date(days: Seq<(Date, Seq<EventView>)>) -> Map<Date, Seq<EventView>> {
    Map::new(|d: Date| has_day(days, d), |d: Date| events_on(days, d))
}

/// In order, each date leads to the events that stand beside it.
pub proof fn lemma_events_on(days: Seq<(Date, Seq<EventView>)>, i: int)
    requires
        valid_days(days),
        0 <= i < days.len(),
    ensures
        has_day(days, days[i].0),
        events_on(days, days[i].0) == days[i].1,
{
    let date = days[i].0;
    let j = choose|j: int| 0 <= j < days.len() && (#[trigger] days[j]).0 == date;
    if i < j {
        assert(crate::date::earlier(days[i].0, days[j].0));
    } else if j < i {
        assert(crate::date::earlier(days[j].0, days[i].0));
    }
}

/// There is one way to put days into order.
pub proof fn lemma_days_once(a: Seq<(Date, Seq<EventView>)>, b: Seq<(Date, Seq<EventView>)>)
    requires
        valid_days(a),
        valid_days(b),
        by_date(a) == by_date(b),
    ensures
        a == b,
    decreases a.len(),
{
    assert forall|d: Date| has_day(a, d) == has_day(b, d) by {
        assert(by_date(a).contains_key(d) == has_day(a, d));
        assert(by_date(b).contains_key(d) == has_day(b, d));
    }
    if a.len() == 0 || b.len() == 0 {
        if a.len() > 0 {
            assert(has_day(a, a[0].0));
        }
        if b.len() > 0 {
            assert(has_day(b, b[0].0));
        }
        assert(a =~= b);
    } else {
        let (x, y) = (a.last().0, b.last().0);
        lemma_events_on(a, a.len() - 1);
        lemma_events_on(b, b.len() - 1);
        assert(has_day(b, x) && has_day(a, y));
        let i = choose|i: int| 0 <= i < b.len() && (#[trigger] b[i]).0 == x;
        let j = choose|j: int| 0 <= j < a.len() && (#[trigger] a[j]).0 == y;
        if x != y {
            assert(crate::date::earlier(b[i].0, b[b.len() - 1].0));
            assert(crate::date::earlier(a[j].0, a[a.len() - 1].0));
        }
        assert(by_date(a)[x] == by_date(b)[x]);
        assert(a.last() == b.last());
        lemma_without_last_day(a);
        lemma_without_last_day(b);
        assert(by_date(a.drop_last()) =~= by_date(b.drop_last()));
        lemma_days_once(a.drop_last(), b.drop_last());
        assert(a =~= a.drop_last().push(a.last()));
        assert(b =~= b.drop_last().push(b.last()));
    }
}

proof fn lemma_without_last_day(a: Seq<(Date, Seq<EventView>)>)
    requires
        valid_days(a),
        a.len() > 0,
    ensures
        valid_days(a.drop_last()),
        by_date(a.drop_last()) == by_date(a).remove(a.last().0),
{
    let b = a.drop_last();
    assert forall|i: int, j: int| 0 <= i < j < b.len() implies crate::date::earlier(
        (#[trigger] b[i]).0,
        (#[trigger] b[j]).0,
    ) by {
        assert(crate::date::earlier(a[i].0, a[j].0));
    }
    assert forall|i: int| 0 <= i < b.len() implies {
        &&& crate::date::valid_date((#[trigger] b[i]).0)
        &&& b[i].1.len() > 0
        &&& in_rank_order(b[i].1)
    } by {
        assert(b[i] == a[i]);
    }
    assert forall|i: int, k: int| 0 <= i < b.len() && 0 <= k < b[i].1.len() implies valid_time(
        (#[trigger] b[i].1[k]).time,
    ) by {
        assert(b[i].1[k] == a[i].1[k]);
    }
    assert forall|d: Date| #[trigger]
        has_day(b, d) <==> has_day(a, d) && d != a.last().0 by {
        if has_day(b, d) {
            let i = choose|i: int| 0 <= i < b.len() && (#[trigger] b[i]).0 == d;
            assert(a[i].0 == d);
            assert(crate::date::earlier(a[i].0, a[a.len() - 1].0));
        }
        if has_day(a, d) && d != a.last().0 {
            let i = choose|i: int| 0 <= i < a.len() && (#[trigger] a[i]).0 == d;
            assert(b[i].0 == d);
        }
    }
    assert forall|d: Date| has_day(b, d) implies events_on(b, d) == events_on(a, d) by {
        let i = choose|i: int| 0 <= i < b.len() && (#[trigger] b[i]).0 == d;
        lemma_events_on(b, i);
        assert(a[i] == b[i]);
        lemma_events_on(a, i);
    }
    assert(by_date(b) =~= by_date(a).remove(a.last().0));
}

impl Agenda {
    /// The days with events, in order.
    pub closed spec fn days(&self) -> Seq<(Date, Seq<EventView>)> {
        Seq::new(self.days@.len(), |i: int| (self.days@[i].0, event_views(self.days@[i].1@)))
    }

    /// The events by date.
    pub open spec fn view(&self) -> Map<Date, Seq<EventView>> {
        by_date(self.days())
    }

    /// The invariant.
    pub open spec fn wf(&self) -> bool {
        valid_days(self.days())
    }

    /// No events.
    pub fn new() -> (a: Agenda)
        ensures
            a.wf(),
            a.days().len() == 0,
            a@ == Map::<Date, Seq<EventView>>::empty(),
    {
        let a = Agenda { days: Vec::new() };
        assert(a@ =~= Map::<Date, Seq<EventView>>::empty());
        a
    }

    /// The first place whose date is not earlier.
    fn place(&self, date: Date) -> (at: usize)
        requires
            self.wf(),
            crate::date::valid_date(date),
        ensures
            at <= self.days@.len() == self.days().len(),
            forall|i: int| 0 <= i < at ==> crate::date::earlier((#[trigger] self.days()[i]).0, date),
            forall|i: int|
                at <= i < self.days().len() ==> !crate::date::earlier(
                    (#[trigger] self.days()[i]).0,
                    date,
                ),
    {
        let mut at: usize = 0;
        while at < self.days.len() && is_earlier(self.days[at].0, date)
            invariant
                self.wf(),
                at <= self.days@.len() == self.days().len(),
                forall|i: int|
                    0 <= i < at ==> crate::date::earlier((#[trigger] self.days()[i]).0, date),
            decreases self.days@.len() - at,
        {
            assert(self.days()[at as int].0 == self.days@[at as int].0);
            at = at + 1;
        }
        proof {
            assert forall|i: int| at <= i < self.days().len() implies !crate::date::earlier(
                (#[trigger] self.days()[i]).0,
                date,
            ) by {
                assert(self.days()[at as int].0 == self.days@[at as int].0);
                if i > at {
                    assert(crate::date::earlier(self.days()[at as int].0, self.days()[i].0));
                }
            }
        }
        at
    }

    /// Whether the place is that of the date.
    fn is_there(&self, at: usize, date: Date) -> (r: bool)
        requires
            self.wf(),
            at <= self.days@.len() == self.days().len(),
            forall|i: int| 0 <= i < at ==> crate::date::earlier((#[trigger] self.days()[i]).0, date),
            forall|i: int|
                at <= i < self.days().len() ==> !crate::date::earlier(
                    (#[trigger] self.days()[i]).0,
                    date,
                ),
        ensures
            r == self@.contains_key(date),
            r ==> at < self.days().len() && self.days()[at as int].0 == date && self@[date]
                == self.days()[at as int].1,
    {
        let r = at < self.days.len() && self.days[at].0 == date;
        proof {
            if r {
                assert(self.days()[at as int].0 == date);
                lemma_events_on(self.days(), at as int);
            } else if has_day(self.days(), date) {
                let i = choose|i: int|
                    0 <= i < self.days().len() && (#[trigger] self.days()[i]).0 == date;
                if at < i {
                    assert(crate::date::earlier(self.days()[at as int].0, self.days()[i].0));
                } else if at == i {
                    assert(self.days@[i].0 == date);
                }
            }
        }
        r
    }

    /// The events on a date, where there are any.
    pub fn on(&self, date: Date) -> (events: Option<&Vec<Event>>)
        requires
            self.wf(),
            crate::date::valid_date(date),
        ensures
            match events {
                Some(events) => self@.contains_key(date) && event_views(events@) == self@[date],
                None => !self@.contains_key(date),
            },
    {
        let at = self.place(date);
        if self.is_there(at, date) {
            Some(&self.days[at].1)
        } else {
            None
        }
    }
}

/// Whether a list can be the events of a day.
pub open spec fn valid_list(list: Seq<EventView>) -> bool {
    &&& list.len() > 0
    &&& in_rank_order(list)
    &&& forall|k: int| 0 <= k < list.len() ==> valid_time((#[trigger] list[k]).time)
}

/// Days that are in order by their dates and hold lists that are in order are valid.
proof fn lemma_valid_days(days: Seq<(Date, Seq<EventView>)>)
    requires
        forall|i: int, j: int|
            0 <= i < j < days.len() ==> crate::date::earlier(
                (#[trigger] days[i]).0,
                (#[trigger] days[j]).0,
            ),
        forall|i: int|
            0 <= i < days.len() ==> crate::date::valid_date((#[trigger] days[i]).0) && valid_list(
                days[i].1,
            ),
    ensures
        valid_days(days),
{
    assert forall|i: int, k: int|
        0 <= i < days.len() && 0 <= k < days[i].1.len() implies valid_time(
        (#[trigger] days[i].1[k]).time,
    ) by {
        assert(valid_list(days[i].1));
    }
}

proof fn lemma_valid_list(days: Seq<(Date, Seq<EventView>)>, i: int)
    requires
        valid_days(days),
        0 <= i < days.len(),
    ensures
        valid_list(days[i].1),
{
    assert forall|k: int| 0 <= k < days[i].1.len() implies valid_time(
        (#[trigger] days[i].1[k]).time,
    ) by {}
}

/// A day comes in at its place.
proof fn lemma_insert_day(
    days: Seq<(Date, Seq<EventView>)>,
    at: int,
    date: Date,
    list: Seq<EventView>,
)
    requires
        valid_days(days),
        0 <= at <= days.len(),
        crate::date::valid_date(date),
        valid_list(list),
        forall|i: int| 0 <= i < at ==> crate::date::earlier((#[trigger] days[i]).0, date),
        forall|i: int| at <= i < days.len() ==> !crate::date::earlier((#[trigger] days[i]).0, date),
        !has_day(days, date),
    ensures
        valid_days(days.insert(at, (date, list))),
        by_date(days.insert(at, (date, list))) == by_date(days).insert(date, list),
{
    let with = days.insert(at, (date, list));
    assert forall|i: int, j: int| 0 <= i < j < with.len() implies crate::date::earlier(
        (#[trigger] with[i]).0,
        (#[trigger] with[j]).0,
    ) by {
        let a = if i < at {
            i
        } else {
            i - 1
        };
        let b = if j < at {
            j
        } else {
            j - 1
        };
        if i == at {
            assert(with[j] == days[b]);
            assert(!crate::date::earlier(days[b].0, date));
            assert(days[b].0 != date) by {
                if days[b].0 == date {
                    assert(has_day(days, date));
                }
            }
        } else if j == at {
            assert(with[i] == days[a]);
        } else {
            assert(with[i] == days[a] && with[j] == days[b]);
            assert(crate::date::earlier(days[a].0, days[b].0));
        }
    }
    assert forall|i: int| 0 <= i < with.len() implies crate::date::valid_date(
        (#[trigger] with[i]).0,
    ) && valid_list(with[i].1) by {
        if i < at {
            assert(with[i] == days[i]);
            lemma_valid_list(days, i);
        } else if i > at {
            assert(with[i] == days[i - 1]);
            lemma_valid_list(days, i - 1);
        }
    }
    lemma_valid_days(with);
    lemma_events_on(with, at);
    assert forall|d: Date| d != date implies has_day(with, d) == has_day(days, d) && (has_day(
        days,
        d,
    ) ==> events_on(with, d) == events_on(days, d)) by {
        if has_day(with, d) {
            let i = choose|i: int| 0 <= i < with.len() && (#[trigger] with[i]).0 == d;
            if i < at {
                assert(days[i].0 == d);
            } else {
                assert(days[i - 1].0 == d);
            }
        }
        if has_day(days, d) {
            let i = choose|i: int| 0 <= i < days.len() && (#[trigger] days[i]).0 == d;
            lemma_events_on(days, i);
            let j = if i < at {
                i
            } else {
                i + 1
            };
            assert(with[j] == days[i]);
            lemma_events_on(with, j);
        }
    }
    assert(by_date(with) =~= by_date(days).insert(date, list));
}

/// A day is taken out.
proof fn lemma_remove_day(days: Seq<(Date, Seq<EventView>)>, at: int)
    requires
        valid_days(days),
        0 <= at < days.len(),
    ensures
        valid_days(days.remove(at)),
        by_date(days.remove(at)) == by_date(days).remove(days[at].0),
        forall|i: int|
            0 <= i < at ==> crate::date::earlier((#[trigger] days.remove(at)[i]).0, days[at].0),
        forall|i: int|
            at <= i < days.remove(at).len() ==> !crate::date::earlier(
                (#[trigger] days.remove(at)[i]).0,
                days[at].0,
            ),
        !has_day(days.remove(at), days[at].0),
{
    let less = days.remove(at);
    let date = days[at].0;
    assert forall|i: int, j: int| 0 <= i < j < less.len() implies crate::date::earlier(
        (#[trigger] less[i]).0,
        (#[trigger] less[j]).0,
    ) by {
        let a = if i < at {
            i
        } else {
            i + 1
        };
        let b = if j < at {
            j
        } else {
            j + 1
        };
        assert(less[i] == days[a] && less[j] == days[b]);
        assert(crate::date::earlier(days[a].0, days[b].0));
    }
    assert forall|i: int| 0 <= i < less.len() implies crate::date::valid_date(
        (#[trigger] less[i]).0,
    ) && valid_list(less[i].1) by {
        let a = if i < at {
            i
        } else {
            i + 1
        };
        assert(less[i] == days[a]);
        lemma_valid_list(days, a);
    }
    lemma_valid_days(less);
    assert forall|i: int| 0 <= i < at implies crate::date::earlier((#[trigger] less[i]).0, date) by {
        assert(crate::date::earlier(days[i].0, days[at].0));
    }
    assert forall|i: int| at <= i < less.len() implies !crate::date::earlier(
        (#[trigger] less[i]).0,
        date,
    ) && less[i].0 != date by {
        assert(crate::date::earlier(days[at].0, days[i + 1].0));
    }
    assert(!has_day(less, date)) by {
        if has_day(less, date) {
            let i = choose|i: int| 0 <= i < less.len() && (#[trigger] less[i]).0 == date;
            if i < at {
                assert(crate::date::earlier(less[i].0, date));
            }
        }
    }
    assert forall|d: Date| d != date implies has_day(less, d) == has_day(days, d) && (has_day(
        days,
        d,
    ) ==> events_on(less, d) == events_on(days, d)) by {
        if has_day(less, d) {
            let i = choose|i: int| 0 <= i < less.len() && (#[trigger] less[i]).0 == d;
            if i < at {
                assert(days[i].0 == d);
            } else {
                assert(days[i + 1].0 == d);
            }
        }
        if has_day(days, d) {
            let i = choose|i: int| 0 <= i < days.len() && (#[trigger] days[i]).0 == d;
            lemma_events_on(days, i);
            let j = if i < at {
                i
            } else {
                i - 1
            };
            assert(less[j] == days[i]);
            lemma_events_on(less, j);
        }
    }
    assert(by_date(less) =~= by_date(days).remove(date));
}

/// The list that an agenda has for a date; empty where it has none.
pub open spec fn list_on(agenda: Map<Date, Seq<EventView>>, date: Date) -> Seq<EventView> {
    if agenda.contains_key(date) {
        agenda[date]
    } else {
        Seq::empty()
    }
}

impl Agenda {
    /// Adds an event to a day. It comes after those at the same time.
    pub fn insert(&mut self, date: Date, event: Event)
        requires
            old(self).wf(),
            crate::date::valid_date(date),
            valid_time(event.time),
        ensures
            final(self).wf(),
            final(self)@ == old(self)@.insert(
                date,
                arranged(list_on(old(self)@, date).push(event@)),
            ),
            is_arranged(list_on(old(self)@, date).push(event@), final(self)@[date]),
    {
        let at = self.place(date);
        let ghost before = self.days();
        let ghost was = list_on(self@, date);
        let mut list: Vec<Event> = Vec::new();
        if self.is_there(at, date) {
            proof {
                lemma_valid_list(before, at as int);
                lemma_remove_day(before, at as int);
            }
            let (_, events) = self.days.remove(at);
            list = events;
            assert(self.days() =~= before.remove(at as int));
            assert(event_views(list@) == was);
        } else {
            assert(event_views(list@) =~= was);
        }
        let ghost less = self.days();
        list.push(event);
        assert(event_views(list@) =~= was.push(event@));
        sort_events(&mut list);
        let ghost now = event_views(list@);
        proof {
            lemma_arranged_list(was.push(event@), now);
            lemma_insert_day(less, at as int, date, now);
        }
        self.days.insert(at, (date, list));
        proof {
            assert(self.days() =~= less.insert(at as int, (date, now)));
            assert(self@ =~= by_date(before).insert(date, now));
        }
    }

    /// Takes an event out of a day; a day without events is no longer there.
    pub fn remove(&mut self, date: Date, index: usize)
        requires
            old(self).wf(),
            crate::date::valid_date(date),
            old(self)@.contains_key(date),
            index < old(self)@[date].len(),
        ensures
            final(self).wf(),
            final(self)@ == if old(self)@[date].len() == 1 {
                old(self)@.remove(date)
            } else {
                old(self)@.insert(date, old(self)@[date].remove(index as int))
            },
    {
        let at = self.place(date);
        let ghost before = self.days();
        let there = self.is_there(at, date);
        assert(there);
        proof {
            lemma_valid_list(before, at as int);
            lemma_remove_day(before, at as int);
        }
        let ghost was = before[at as int].1;
        let (_, mut list) = self.days.remove(at);
        assert(event_views(list@) == was);
        let ghost less = self.days();
        assert(less =~= before.remove(at as int));
        list.remove(index);
        assert(event_views(list@) =~= was.remove(index as int));
        if list.len() > 0 {
            proof {
                let now = was.remove(index as int);
                assert forall|i: int, j: int| 0 <= i <= j < now.len() implies rank(
                    #[trigger] now[i],
                ) <= rank(#[trigger] now[j]) by {
                    let a = if i < index {
                        i
                    } else {
                        i + 1
                    };
                    let b = if j < index {
                        j
                    } else {
                        j + 1
                    };
                    assert(rank(was[a]) <= rank(was[b]));
                }
                assert forall|k: int| 0 <= k < now.len() implies valid_time(
                    (#[trigger] now[k]).time,
                ) by {
                    let a = if k < index {
                        k
                    } else {
                        k + 1
                    };
                    assert(valid_time(was[a].time));
                }
                lemma_insert_day(less, at as int, date, now);
            }
            self.days.insert(at, (date, list));
            proof {
                let now = was.remove(index as int);
                assert(self.days() =~= less.insert(at as int, (date, now)));
                assert(self@ =~= by_date(before).insert(date, now));
            }
        }
    }
}

/// Arranging keeps what can be the events of a day.
proof fn lemma_arranged_list(before: Seq<EventView>, after: Seq<EventView>)
    requires
        is_arranged(before, after),
        before.len() > 0,
        forall|k: int| 0 <= k < before.len() ==> valid_time((#[trigger] before[k]).time),
    ensures
        valid_list(after),
{
    crate::sync::lemma_filtered(before, |e: EventView| rank(e) == rank(before[0]));
    assert(before.contains(before[0]));
    assert(of_rank(before, rank(before[0])).contains(before[0]));
    crate::sync::lemma_filtered(after, |e: EventView| rank(e) == rank(before[0]));
    assert(of_rank(after, rank(before[0])).contains(before[0]));
    assert(after.contains(before[0]));
    assert forall|k: int| 0 <= k < after.len() implies valid_time((#[trigger] after[k]).time) by {
        let e = after[k];
        let p = |x: EventView| rank(x) == rank(e);
        crate::sync::lemma_filtered(after, p);
        crate::sync::lemma_filtered(before, p);
        assert(after.contains(e));
        assert(of_rank(after, rank(e)).contains(e));
        assert(of_rank(before, rank(e)).contains(e));
        assert(before.contains(e));
        let j = choose|j: int| 0 <= j < before.len() && before[j] == e;
        assert(valid_time(before[j].time));
    }
}

// ── The file ──────────────────────────────────────────────────────────────

/// The event that a record is. What does not write a time of day is no time.
pub open spec fn event_of(r: crate::record::RecordView) -> EventView {
    EventView {
        time: match r.time {
            Some(t) => time_read(t),
            None => None,
        },
        title: r.title,
        uid: r.uid,
        source: r.source,
        recurring: r.recurring,
    }
}

/// The events of the records on a date, in the order of the file. A record whose date is not
/// one is on no date.
pub open spec fn events_for(records: Seq<crate::record::RecordView>, date: Date) -> Seq<EventView>
    decreases records.len(),
{
    if records.len() == 0 {
        Seq::empty()
    } else {
        let before = events_for(records.drop_last(), date);
        if crate::date::date_read(records.last().date) == Some(date) {
            before.push(event_of(records.last()))
        } else {
            before
        }
    }
}

/// The agenda that the records of the file are.
pub open spec fn agenda_of(records: Seq<crate::record::RecordView>) -> Map<Date, Seq<EventView>> {
    Map::new(
        |d: Date| events_for(records, d).len() > 0,
        |d: Date| arranged(events_for(records, d)),
    )
}

/// The record that an event on a date is.
pub open spec fn record_of(date: Date, e: EventView) -> crate::record::RecordView {
    crate::record::RecordView {
        date: crate::date::date_text(date),
        time: match e.time {
            Some((h, m)) => Some(crate::mirror::clock_text(h, m)),
            None => None,
        },
        title: e.title,
        uid: e.uid,
        source: e.source,
        recurring: e.recurring,
    }
}

/// The records that the events of a day are.
pub open spec fn day_records(date: Date, list: Seq<EventView>) -> Seq<crate::record::RecordView> {
    Seq::new(list.len(), |k: int| record_of(date, list[k]))
}

/// The records that the events of days are, day by day.
pub open spec fn all_records(days: Seq<(Date, Seq<EventView>)>) -> Seq<crate::record::RecordView>
    decreases days.len(),
{
    if days.len() == 0 {
        Seq::empty()
    } else {
        all_records(days.drop_last()) + day_records(days.last().0, days.last().1)
    }
}

fn write_record(date: Date, e: &Event) -> (r: EventRecord)
    requires
        crate::date::valid_date(date),
    ensures
        r@ == record_of(date, e@),
{
    EventRecord {
        date: write_date(date),
        time: match e.time {
            Some((h, m)) => Some(write_clock(h, m)),
            None => None,
        },
        title: e.title.clone(),
        uid: copy_opt(&e.uid),
        source: copy_opt(&e.source),
        recurring: e.recurring,
    }
}

fn read_event(r: &EventRecord) -> (e: Event)
    ensures
        e@ == event_of(r@),
        valid_time(e.time),
{
    Event {
        time: match &r.time {
            Some(t) => parse_time(t.as_str()),
            None => None,
        },
        title: r.title.clone(),
        uid: copy_opt(&r.uid),
        source: copy_opt(&r.source),
        recurring: r.recurring,
    }
}

impl Agenda {
    /// The records of the file: day by day, each in order.
    pub fn to_records(&self) -> (records: Vec<EventRecord>)
        requires
            self.wf(),
        ensures
            crate::record::record_views(records@) == all_records(self.days()),
    {
        let ghost all = self.days();
        let mut records: Vec<EventRecord> = Vec::new();
        let mut i: usize = 0;
        assert(crate::record::record_views(records@) =~= Seq::empty());
        while i < self.days.len()
            invariant
                self.wf(),
                all == self.days(),
                i <= self.days@.len() == all.len(),
                crate::record::record_views(records@) == all_records(all.take(i as int)),
            decreases self.days@.len() - i,
        {
            let (date, list) = &self.days[i];
            let date = *date;
            assert(all[i as int] == (date, event_views(list@)));
            let ghost before = crate::record::record_views(records@);
            let ghost wanted = day_records(date, event_views(list@));
            let mut k: usize = 0;
            assert(before =~= before + wanted.take(0));
            while k < list.len()
                invariant
                    crate::date::valid_date(date),
                    wanted == day_records(date, event_views(list@)),
                    k <= list@.len(),
                    crate::record::record_views(records@) == before + wanted.take(k as int),
                decreases list@.len() - k,
            {
                let ghost was = crate::record::record_views(records@);
                records.push(write_record(date, &list[k]));
                proof {
                    assert(wanted.take(k + 1) =~= wanted.take(k as int).push(wanted[k as int]));
                    assert(crate::record::record_views(records@) =~= was.push(wanted[k as int]));
                    assert(before + wanted.take(k + 1) =~= (before + wanted.take(k as int)).push(
                        wanted[k as int],
                    ));
                }
                k = k + 1;
            }
            assert(wanted.take(k as int) =~= wanted);
            assert(all.take(i + 1).drop_last() =~= all.take(i as int));
            i = i + 1;
        }
        assert(all.take(i as int) =~= all);
        records
    }
}

/// Whether reading a date gives back what writing it wrote, for each record of a list.
spec fn dates_read_back(records: Seq<crate::record::RecordView>) -> bool {
    forall|i: int, d: Date|
        0 <= i < records.len() && #[trigger] crate::date::valid_date(d)
            && (#[trigger] records[i]).date == crate::date::date_text(d)
            ==> crate::date::date_read(records[i].date) == Some(d)
}

/// The agenda that the records of the file are. What was saved comes back as it was: the same
/// days with the same events in the same order. What the sync or the calendar wrote is saved
/// again as it was read: with its identity, its mark and whether it repeats.
pub fn load_events(records: &Vec<EventRecord>) -> (agenda: Agenda)
    ensures
        agenda.wf(),
        agenda@ == agenda_of(crate::record::record_views(records@)),
        forall|days: Seq<(Date, Seq<EventView>)>| #[trigger]
            valid_days(days) && crate::record::record_views(records@) == all_records(days)
                ==> agenda.days() == days,
        forall|i: int, date: Date, time: Option<(u32, u32)>|
            0 <= i < records@.len() && #[trigger] crate::when::is_dated(
                records@[i]@,
                date,
                time,
            ) ==> all_records(agenda.days()).contains(records@[i]@),
{
    let ghost all = crate::record::record_views(records@);
    let mut agenda = Agenda::new();
    let mut i: usize = 0;
    while i < records.len()
        invariant
            all == crate::record::record_views(records@),
            i <= records@.len(),
            agenda.wf(),
            forall|d: Date| #[trigger]
                agenda@.contains_key(d) <==> events_for(all.take(i as int), d).len() > 0,
            forall|d: Date| #[trigger]
                is_arranged(events_for(all.take(i as int), d), list_on(agenda@, d)),
            dates_read_back(all.take(i as int)),
        decreases records@.len() - i,
    {
        let ghost done = all.take(i as int);
        let ghost next = all.take(i + 1);
        let ghost r = all[i as int];
        assert(next.drop_last() =~= done);
        assert(next.last() == r);
        let ghost before = agenda@;
        let read = read_date(records[i].date.as_str());
        if let Some(date) = read {
            let event = read_event(&records[i]);
            let ghost view = event@;
            agenda.insert(date, event);
            proof {
                assert(is_arranged(events_for(done, date), list_on(before, date)));
                lemma_arrange_more(
                    events_for(done, date),
                    list_on(before, date),
                    view,
                    agenda@[date],
                );
                assert forall|d: Date| #[trigger] is_arranged(
                    events_for(next, d),
                    list_on(agenda@, d),
                ) by {
                    assert(is_arranged(events_for(done, d), list_on(before, d)));
                }
                assert forall|d: Date| #[trigger]
                    agenda@.contains_key(d) <==> events_for(next, d).len() > 0 by {
                    assert(before.contains_key(d) <==> events_for(done, d).len() > 0);
                }
            }
        } else {
            proof {
                assert forall|d: Date| #[trigger] is_arranged(
                    events_for(next, d),
                    list_on(agenda@, d),
                ) by {
                    assert(is_arranged(events_for(done, d), list_on(before, d)));
                }
                assert forall|d: Date| #[trigger]
                    agenda@.contains_key(d) <==> events_for(next, d).len() > 0 by {
                    assert(before.contains_key(d) <==> events_for(done, d).len() > 0);
                }
            }
        }
        proof {
            assert forall|k: int, d: Date|
                0 <= k < next.len() && #[trigger] crate::date::valid_date(d)
                    && (#[trigger] next[k]).date == crate::date::date_text(d)
                implies crate::date::date_read(next[k].date) == Some(d) by {
                if k < i {
                    assert(next[k] == done[k]);
                }
            }
        }
        i = i + 1;
    }
    proof {
        assert(all.take(i as int) =~= all);
        assert forall|d: Date| agenda@.contains_key(d) implies agenda@[d] == arranged(
            events_for(all, d),
        ) by {
            assert(is_arranged(events_for(all, d), list_on(agenda@, d)));
            lemma_arranged_once(events_for(all, d), agenda@[d], arranged(events_for(all, d)));
        }
        assert(agenda@ =~= agenda_of(all));
        assert forall|days: Seq<(Date, Seq<EventView>)>| #[trigger]
            valid_days(days) && all == all_records(days) implies agenda.days() == days by {
            lemma_saved_comes_back(days, agenda@);
            lemma_days_once(agenda.days(), days);
        }
        assert forall|i: int, date: Date, time: Option<(u32, u32)>|
            0 <= i < records@.len() && #[trigger] crate::when::is_dated(
                records@[i]@,
                date,
                time,
            ) implies all_records(agenda.days()).contains(records@[i]@) by {
            assert(all[i] == records@[i]@);
            assert(crate::date::valid_date(date));
            crate::agenda_laws::law_saving_strips_nothing(all, agenda.days(), i, date, time);
        }
    }
    agenda
}

/// One more event on both sides.
proof fn lemma_arrange_more(
    before: Seq<EventView>,
    list: Seq<EventView>,
    e: EventView,
    after: Seq<EventView>,
)
    requires
        is_arranged(before, list),
        is_arranged(list.push(e), after),
    ensures
        is_arranged(before.push(e), after),
{
    reveal(Seq::filter);
    assert forall|k: int| #[trigger] of_rank(before.push(e), k) == of_rank(after, k) by {
        assert(of_rank(before, k) == of_rank(list, k));
        assert(of_rank(list.push(e), k) == of_rank(after, k));
        assert(before.push(e).drop_last() =~= before);
        assert(list.push(e).drop_last() =~= list);
    }
}

/// A time of day reads back as it was written.
pub proof fn lemma_time_reads_back(hour: u32, minute: u32)
    requires
        hour < 24,
        minute < 60,
    ensures
        time_read(crate::mirror::clock_text(hour, minute)) == Some((hour, minute)),
{
    crate::text::lemma_two_digits(hour);
    crate::text::lemma_two_digits(minute);
    let text = crate::mirror::clock_text(hour, minute);
    let (h, m) = (
        crate::text::padded(hour as nat, 2),
        crate::text::padded(minute as nat, 2),
    );
    assert(text[2] == ':');
    crate::text::lemma_find_is(text, ':', 2);
    assert(text.take(2) =~= h);
    assert(text.skip(3) =~= m);
    assert(text[0] == h[0]);
}

/// The records that days are give the days back.
proof fn lemma_saved_comes_back(
    days: Seq<(Date, Seq<EventView>)>,
    agenda: Map<Date, Seq<EventView>>,
)
    requires
        valid_days(days),
        dates_read_back(all_records(days)),
        agenda == agenda_of(all_records(days)),
    ensures
        agenda == by_date(days),
{
    let all = all_records(days);
    assert forall|d: Date| #[trigger] events_for(all, d) == (if has_day(days, d) {
        events_on(days, d)
    } else {
        Seq::empty()
    }) by {
        lemma_events_for(days, d);
    }
    assert forall|d: Date| has_day(days, d) implies #[trigger] events_on(days, d).len() > 0
        && arranged(events_on(days, d)) == events_on(days, d) by {
        let i = choose|i: int| 0 <= i < days.len() && (#[trigger] days[i]).0 == d;
        lemma_events_on(days, i);
        let list = days[i].1;
        assert(is_arranged(list, list));
        lemma_arranged_once(list, list, arranged(list));
    }
    assert forall|d: Date| agenda.contains_key(d) <==> has_day(days, d) by {
        assert(agenda.contains_key(d) <==> events_for(all, d).len() > 0);
        if has_day(days, d) {
            assert(events_on(days, d).len() > 0);
        }
    }
    assert(agenda =~= by_date(days));
}

/// The events that the records of days give for a date are those of the day.
proof fn lemma_events_for(days: Seq<(Date, Seq<EventView>)>, d: Date)
    requires
        valid_days(days),
        dates_read_back(all_records(days)),
    ensures
        events_for(all_records(days), d) == (if has_day(days, d) {
            events_on(days, d)
        } else {
            Seq::empty()
        }),
    decreases days.len(),
{
    let all = all_records(days);
    if days.len() > 0 {
        let rest = days.drop_last();
        let (date, list) = days.last();
        let before = all_records(rest);
        let added = day_records(date, list);
        lemma_without_last_day(days);
        assert forall|i: int, e: Date|
            0 <= i < before.len() && #[trigger] crate::date::valid_date(e)
                && (#[trigger] before[i]).date == crate::date::date_text(e)
            implies crate::date::date_read(before[i].date) == Some(e) by {
            assert(all[i] == before[i]);
        }
        lemma_events_for(rest, d);
        lemma_valid_list(days, days.len() - 1);
        assert(crate::date::valid_date(days[days.len() - 1].0));
        lemma_events_for_more(before, date, list, d, list.len() as int);
        assert(added.take(list.len() as int) =~= added);
        assert(list.take(list.len() as int) =~= list);
        lemma_events_on(days, days.len() - 1);
        assert(by_date(rest).contains_key(d) == has_day(rest, d));
        assert(by_date(days).contains_key(d) == has_day(days, d));
        if d == date {
            assert(!by_date(rest).contains_key(d));
            assert(Seq::<EventView>::empty() + list =~= list);
        } else {
            if has_day(days, d) {
                assert(by_date(rest)[d] == by_date(days)[d]);
            }
        }
    } else {
        assert(!has_day(days, d));
    }
}

/// The records of one more day add its events.
proof fn lemma_events_for_more(
    before: Seq<crate::record::RecordView>,
    date: Date,
    list: Seq<EventView>,
    d: Date,
    n: int,
)
    requires
        0 <= n <= list.len(),
        crate::date::valid_date(date),
        forall|k: int| 0 <= k < list.len() ==> valid_time((#[trigger] list[k]).time),
        dates_read_back(before + day_records(date, list)),
    ensures
        events_for(before + day_records(date, list).take(n), d) == if d == date {
            events_for(before, d) + list.take(n)
        } else {
            events_for(before, d)
        },
    decreases n,
{
    let added = day_records(date, list);
    if n > 0 {
        lemma_events_for_more(before, date, list, d, n - 1);
        let now = before + added.take(n);
        assert(now.drop_last() =~= before + added.take(n - 1));
        let r = record_of(date, list[n - 1]);
        assert(now.last() == r);
        let all = before + added;
        assert(all[before.len() + n - 1] == r);
        assert(crate::date::date_read(r.date) == Some(date));
        if let Some((h, m)) = list[n - 1].time {
            lemma_time_reads_back(h, m);
        }
        assert(event_of(r) =~= list[n - 1]);
        assert((events_for(before, d) + list.take(n - 1)).push(list[n - 1]) =~= events_for(
            before,
            d,
        ) + list.take(n));
    } else {
        assert(before + added.take(0) =~= before);
        assert(events_for(before, d) + list.take(0) =~= events_for(before, d));
    }
}

} // verus!
