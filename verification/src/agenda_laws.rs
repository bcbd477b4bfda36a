//! What saving keeps of what was read.
use vstd::prelude::*;

use crate::agenda::EventView;
use crate::date::Date;

verus! {

// ── Arranging ─────────────────────────────────────────────────────────────

/// Behind which of the events in order one with a rank belongs.
proof fn lemma_place(events: Seq<EventView>, k: int) -> (at: int)
    requires
        crate::agenda::in_rank_order(events),
    ensures
        0 <= at <= events.len(),
        forall|i: int| 0 <= i < at ==> crate::agenda::rank(#[trigger] events[i]) <= k,
        forall|i: int| at <= i < events.len() ==> crate::agenda::rank(#[trigger] events[i]) > k,
    decreases events.len(),
{
    if events.len() == 0 {
        0
    } else {
        let last = events.len() - 1;
        if crate::agenda::rank(events[last]) <= k {
            assert forall|i: int| 0 <= i < events.len() implies crate::agenda::rank(
                #[trigger] events[i],
            ) <= k by {
                assert(crate::agenda::rank(events[i]) <= crate::agenda::rank(events[last]));
            }
            events.len() as int
        } else {
            let rest = events.drop_last();
            assert(crate::agenda::in_rank_order(rest)) by {
                assert forall|i: int, j: int| 0 <= i <= j < rest.len() implies crate::agenda::rank(
                    #[trigger] rest[i],
                ) <= crate::agenda::rank(#[trigger] rest[j]) by {
                    assert(rest[i] == events[i] && rest[j] == events[j]);
                }
            }
            let at = lemma_place(rest, k);
            assert forall|i: int| 0 <= i < at implies crate::agenda::rank(#[trigger] events[i])
                <= k by {
                assert(rest[i] == events[i]);
            }
            assert forall|i: int| at <= i < events.len() implies crate::agenda::rank(
                #[trigger] events[i],
            ) > k by {
                if i < last {
                    assert(rest[i] == events[i]);
                }
            }
            at
        }
    }
}

/// Events can be arranged.
pub proof fn lemma_arranged(before: Seq<EventView>)
    ensures
        crate::agenda::is_arranged(before, crate::agenda::arranged(before)),
    decreases before.len(),
{
    reveal(Seq::filter);
    if before.len() == 0 {
        assert(crate::agenda::is_arranged(before, before));
    } else {
        let rest = before.drop_last();
        let e = before.last();
        lemma_arranged(rest);
        let a = crate::agenda::arranged(rest);
        let at = lemma_place(a, crate::agenda::rank(e));
        let (head, tail) = (a.take(at), a.skip(at));
        let after = head.push(e) + tail;
        assert(a =~= head + tail);
        assert(crate::agenda::in_rank_order(after)) by {
            assert forall|i: int, j: int| 0 <= i <= j < after.len() implies crate::agenda::rank(
                #[trigger] after[i],
            ) <= crate::agenda::rank(#[trigger] after[j]) by {
                let x = if i < at {
                    i
                } else {
                    i - 1
                };
                let y = if j < at {
                    j
                } else {
                    j - 1
                };
                if i != at {
                    assert(after[i] == a[x]);
                }
                if j != at {
                    assert(after[j] == a[y]);
                }
                if i != at && j != at {
                    assert(crate::agenda::rank(a[x]) <= crate::agenda::rank(a[y]));
                }
            }
        }
        assert forall|k: int| #[trigger]
            crate::agenda::of_rank(before, k) == crate::agenda::of_rank(after, k) by {
            let p = |x: EventView| crate::agenda::rank(x) == k;
            assert(crate::agenda::of_rank(rest, k) == crate::agenda::of_rank(a, k));
            Seq::filter_distributes_over_add(head, tail, p);
            Seq::filter_distributes_over_add(head.push(e), tail, p);
            assert(head.push(e).drop_last() =~= head);
            if k == crate::agenda::rank(e) {
                tail.lemma_all_neg_filter_empty(p);
                assert(tail.filter(p) =~= Seq::empty());
                assert(head.filter(p) + tail.filter(p) =~= head.filter(p));
                assert(head.push(e).filter(p) + tail.filter(p) =~= head.filter(p).push(e));
            }
        }
        assert(crate::agenda::is_arranged(before, after));
    }
}

/// Arranging keeps the events, no more and no fewer.
proof fn lemma_same_events(before: Seq<EventView>, after: Seq<EventView>, e: EventView)
    requires
        crate::agenda::is_arranged(before, after),
    ensures
        before.contains(e) <==> after.contains(e),
{
    let p = |x: EventView| crate::agenda::rank(x) == crate::agenda::rank(e);
    crate::sync::lemma_filtered(before, p);
    crate::sync::lemma_filtered(after, p);
    assert(crate::agenda::of_rank(before, crate::agenda::rank(e)) == crate::agenda::of_rank(
        after,
        crate::agenda::rank(e),
    ));
    assert(before.filter(p).contains(e) == after.filter(p).contains(e));
}

// ── Saving ────────────────────────────────────────────────────────────────

/// Whether a record of the file, which is on a date, is saved as another.
pub open spec fn is_saved_as(
    records: Seq<crate::record::RecordView>,
    i: int,
    date: Date,
    x: crate::record::RecordView,
) -> bool {
    &&& 0 <= i < records.len()
    &&& crate::date::date_read(records[i].date) == Some(date)
    &&& x == crate::agenda::record_of(date, crate::agenda::event_of(records[i]))
}

/// Which events there are on a date.
proof fn lemma_events_for(
    records: Seq<crate::record::RecordView>,
    date: Date,
    e: EventView,
)
    ensures
        crate::agenda::events_for(records, date).contains(e) <==> exists|i: int|
            0 <= i < records.len() && crate::date::date_read((#[trigger] records[i]).date) == Some(
                date,
            ) && crate::agenda::event_of(records[i]) == e,
    decreases records.len(),
{
    let list = crate::agenda::events_for(records, date);
    if records.len() > 0 {
        let rest = records.drop_last();
        let before = crate::agenda::events_for(rest, date);
        let last = records.len() - 1;
        lemma_events_for(rest, date, e);
        if list.contains(e) {
            let k = choose|k: int| 0 <= k < list.len() && list[k] == e;
            if k < before.len() {
                assert(before[k] == e);
                assert(before.contains(e));
                let i = choose|i: int|
                    0 <= i < rest.len() && crate::date::date_read((#[trigger] rest[i]).date)
                        == Some(date) && crate::agenda::event_of(rest[i]) == e;
                assert(records[i] == rest[i]);
            } else {
                assert(crate::agenda::event_of(records[last]) == e);
            }
        }
        if exists|i: int|
            0 <= i < records.len() && crate::date::date_read((#[trigger] records[i]).date) == Some(
                date,
            ) && crate::agenda::event_of(records[i]) == e {
            let i = choose|i: int|
                0 <= i < records.len() && crate::date::date_read((#[trigger] records[i]).date)
                    == Some(date) && crate::agenda::event_of(records[i]) == e;
            if i < last {
                assert(rest[i] == records[i]);
                assert(before.contains(e));
                let k = choose|k: int| 0 <= k < before.len() && before[k] == e;
                assert(list[k] == e);
            } else {
                assert(list.last() == e);
            }
        }
    }
}

/// Which records days are.
proof fn lemma_all_records(
    days: Seq<(Date, Seq<EventView>)>,
    x: crate::record::RecordView,
)
    ensures
        crate::agenda::all_records(days).contains(x) <==> exists|d: int, k: int|
            0 <= d < days.len() && 0 <= k < days[d].1.len() && x == crate::agenda::record_of(
                days[d].0,
                #[trigger] days[d].1[k],
            ),
    decreases days.len(),
{
    let all = crate::agenda::all_records(days);
    if days.len() > 0 {
        let rest = days.drop_last();
        let before = crate::agenda::all_records(rest);
        let last = days.len() - 1;
        let added = crate::agenda::day_records(days[last].0, days[last].1);
        lemma_all_records(rest, x);
        if all.contains(x) {
            let n = choose|n: int| 0 <= n < all.len() && all[n] == x;
            if n < before.len() {
                assert(before[n] == x);
                assert(before.contains(x));
                let (d, k) = choose|d: int, k: int|
                    0 <= d < rest.len() && 0 <= k < rest[d].1.len() && x
                        == crate::agenda::record_of(rest[d].0, #[trigger] rest[d].1[k]);
                assert(days[d].1[k] == rest[d].1[k]);
            } else {
                let k = n - before.len();
                assert(added[k] == x);
                assert(x == crate::agenda::record_of(days[last].0, days[last].1[k]));
            }
        }
        if exists|d: int, k: int|
            0 <= d < days.len() && 0 <= k < days[d].1.len() && x == crate::agenda::record_of(
                days[d].0,
                #[trigger] days[d].1[k],
            ) {
            let (d, k) = choose|d: int, k: int|
                0 <= d < days.len() && 0 <= k < days[d].1.len() && x == crate::agenda::record_of(
                    days[d].0,
                    #[trigger] days[d].1[k],
                );
            if d < last {
                assert(rest[d].1[k] == days[d].1[k]);
                assert(before.contains(x));
                let n = choose|n: int| 0 <= n < before.len() && before[n] == x;
                assert(all[n] == x);
            } else {
                assert(added[k] == x);
                assert(all[before.len() + k] == x);
            }
        }
    }
}

/// What was read is saved, no more and no less: every record whose date is one, with its title,
/// its identity, its mark and whether it repeats.
pub proof fn law_saving_keeps_what_was_read(
    records: Seq<crate::record::RecordView>,
    days: Seq<(Date, Seq<EventView>)>,
    x: crate::record::RecordView,
)
    requires
        crate::agenda::valid_days(days),
        crate::agenda::by_date(days) == crate::agenda::agenda_of(records),
    ensures
        crate::agenda::all_records(days).contains(x) <==> exists|i: int, date: Date| #[trigger]
            is_saved_as(records, i, date, x),
{
    let agenda = crate::agenda::agenda_of(records);
    lemma_all_records(days, x);
    if crate::agenda::all_records(days).contains(x) {
        let (d, k) = choose|d: int, k: int|
            0 <= d < days.len() && 0 <= k < days[d].1.len() && x == crate::agenda::record_of(
                days[d].0,
                #[trigger] days[d].1[k],
            );
        let (date, e) = (days[d].0, days[d].1[k]);
        crate::agenda::lemma_events_on(days, d);
        let list = crate::agenda::events_for(records, date);
        assert(crate::agenda::by_date(days).contains_key(date));
        assert(agenda[date] == days[d].1);
        lemma_arranged(list);
        lemma_same_events(list, days[d].1, e);
        assert(days[d].1.contains(e));
        lemma_events_for(records, date, e);
        let i = choose|i: int|
            0 <= i < records.len() && crate::date::date_read((#[trigger] records[i]).date) == Some(
                date,
            ) && crate::agenda::event_of(records[i]) == e;
        assert(is_saved_as(records, i, date, x));
    }
    if exists|i: int, date: Date| #[trigger] is_saved_as(records, i, date, x) {
        let (i, date) = choose|i: int, date: Date| #[trigger] is_saved_as(records, i, date, x);
        lemma_read_is_saved(records, days, i, date);
        let e = crate::agenda::event_of(records[i]);
        let (d, k) = choose|d: int, k: int|
            0 <= d < days.len() && days[d].0 == date && 0 <= k < days[d].1.len()
                && #[trigger] days[d].1[k] == e;
        assert(x == crate::agenda::record_of(days[d].0, days[d].1[k]));
    }
}

/// The event of a record that was read stands on its day.
proof fn lemma_read_is_saved(
    records: Seq<crate::record::RecordView>,
    days: Seq<(Date, Seq<EventView>)>,
    i: int,
    date: Date,
)
    requires
        crate::agenda::valid_days(days),
        crate::agenda::by_date(days) == crate::agenda::agenda_of(records),
        0 <= i < records.len(),
        crate::date::date_read(records[i].date) == Some(date),
    ensures
        exists|d: int, k: int|
            0 <= d < days.len() && days[d].0 == date && 0 <= k < days[d].1.len()
                && #[trigger] days[d].1[k] == crate::agenda::event_of(records[i]),
{
    let e = crate::agenda::event_of(records[i]);
    let list = crate::agenda::events_for(records, date);
    lemma_events_for(records, date, e);
    assert(list.contains(e));
    assert(crate::agenda::agenda_of(records).contains_key(date));
    assert(crate::agenda::by_date(days).contains_key(date));
    let d = choose|d: int| 0 <= d < days.len() && (#[trigger] days[d]).0 == date;
    crate::agenda::lemma_events_on(days, d);
    assert(crate::agenda::agenda_of(records)[date] == days[d].1);
    lemma_arranged(list);
    lemma_same_events(list, days[d].1, e);
    let k = choose|k: int| 0 <= k < days[d].1.len() && days[d].1[k] == e;
    assert(days[d].1[k] == e);
}

/// A record that the sync wrote is saved as it was read: nothing is stripped from it.
pub proof fn law_saving_strips_nothing(
    records: Seq<crate::record::RecordView>,
    days: Seq<(Date, Seq<EventView>)>,
    i: int,
    date: Date,
    time: Option<(u32, u32)>,
)
    requires
        crate::agenda::valid_days(days),
        crate::agenda::by_date(days) == crate::agenda::agenda_of(records),
        0 <= i < records.len(),
        crate::when::is_dated(records[i], date, time),
        crate::date::date_read(records[i].date) == Some(date),
    ensures
        crate::agenda::all_records(days).contains(records[i]),
{
    let r = records[i];
    if let Some((hour, minute)) = time {
        crate::agenda::lemma_time_reads_back(hour, minute);
    }
    let x = crate::agenda::record_of(date, crate::agenda::event_of(r));
    assert(x =~= r);
    assert(is_saved_as(records, i, date, r));
    law_saving_keeps_what_was_read(records, days, r);
}

} // verus!
