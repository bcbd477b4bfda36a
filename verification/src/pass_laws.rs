//! What a pass is for: which requests it makes of the server, for what the file, the state and
//! the server say, and what it leaves behind.
use vstd::prelude::*;

use crate::record::{RecordView, SyncedView};
use crate::remote::{CalendarView, RemoteEventView};

verus! {

// ── Deletions ─────────────────────────────────────────────────────────────

/// An event is deleted on the server exactly where the state knows it as the account's, the
/// server has it as one that does not repeat, and no record of the file carries its identity
/// and the mark of the account. The tags play no part. It is deleted once.
pub proof fn law_missing_records_are_deleted(
    records: Seq<RecordView>,
    state: Map<Seq<char>, SyncedView>,
    remote: Map<Seq<char>, RemoteEventView>,
    source: Seq<char>,
    push_here: bool,
    uid: Seq<char>,
)
    requires
        state.dom().finite(),
    ensures
        ({
            let plan = crate::sync::planned(records, state, remote, source, push_here);
            &&& plan.deletes.no_duplicates()
            &&& plan.deletes.contains(uid) <==> {
                &&& state.contains_key(uid)
                &&& state[uid].source == source
                &&& remote.contains_key(uid)
                &&& !remote[uid].recurring
                &&& forall|i: int|
                    0 <= i < records.len() ==> !((#[trigger] records[i]).source == Some(source)
                        && records[i].uid == Some(uid))
            }
        }),
{
    crate::uid_map::lemma_listed(state.dom());
    crate::sync::lemma_planned(records, state, remote, source, push_here);
    crate::sync_laws::lemma_last_local(records, source, uid);
    assert forall|i: int| 0 <= i < records.len() implies records.contains(#[trigger] records[i]) by {}
}

/// No more events are deleted than the state knows of the account.
pub proof fn law_no_more_deletions_than_known(
    records: Seq<RecordView>,
    state: Map<Seq<char>, SyncedView>,
    remote: Map<Seq<char>, RemoteEventView>,
    source: Seq<char>,
    push_here: bool,
)
    requires
        state.dom().finite(),
    ensures
        crate::sync::planned(records, state, remote, source, push_here).deletes.len()
            <= crate::sync::known_count(state, source),
{
    let plan = crate::sync::planned(records, state, remote, source, push_here);
    crate::uid_map::lemma_listed(state.dom());
    crate::sync::lemma_planned(records, state, remote, source, push_here);
    law_known_events_are_counted(state, source);
    let own = Set::new(|u: Seq<char>| state.contains_key(u) && state[u].source == source);
    assert(own.subset_of(state.dom()));
    vstd::set_lib::lemma_set_subset_finite(state.dom(), own);
    assert(plan.deletes.to_set().subset_of(own)) by {
        assert forall|u: Seq<char>| plan.deletes.to_set().contains(u) implies own.contains(u) by {
            assert(plan.deletes.contains(u));
        }
    }
    plan.deletes.unique_seq_to_set();
    vstd::set_lib::lemma_len_subset(plan.deletes.to_set(), own);
}

/// What is known of an account are the events of the state that carry its mark, each counted
/// once.
pub proof fn law_known_events_are_counted(state: Map<Seq<char>, SyncedView>, source: Seq<char>)
    requires
        state.dom().finite(),
    ensures
        crate::sync::known_count(state, source) == Set::new(
            |u: Seq<char>| state.contains_key(u) && state[u].source == source,
        ).len(),
{
    let uids = crate::uid_map::in_order(state.dom());
    let own = |u: Seq<char>| crate::sync::owned(state, source, u);
    crate::uid_map::lemma_listed(state.dom());
    crate::uid_map::lemma_ascending_once(uids);
    crate::sync::lemma_filtered(uids, own);
    uids.filter(own).unique_seq_to_set();
    let set = Set::new(|u: Seq<char>| state.contains_key(u) && state[u].source == source);
    assert forall|u: Seq<char>| uids.filter(own).to_set().contains(u) == set.contains(u) by {
        assert(uids.to_set().contains(u) == state.dom().contains(u));
        assert(uids.filter(own).contains(u) == (uids.contains(u) && own(u)));
    }
    assert(uids.filter(own).to_set() =~= set);
}

/// Deletions are refused exactly from the sixth on, and where fewer known events would be left
/// than are deleted. Up to five, and up to half, go through.
pub proof fn law_mass_deletions_are_refused(deletes: int, known: int)
    requires
        0 <= deletes <= known,
    ensures
        crate::sync::too_many_deletes(deletes, known) <==> 6 <= deletes && known - deletes
            < deletes,
{
}

// ── Changes ───────────────────────────────────────────────────────────────

/// An event is changed on the server to what a record says exactly where the state knows it as
/// the account's, the server has it as one that does not repeat and is not several instances,
/// the record is the only one of the file with its identity and the mark of the account, and its
/// date, time or title is not that of the state.
pub proof fn law_edited_records_are_pushed(
    records: Seq<RecordView>,
    state: Map<Seq<char>, SyncedView>,
    remote: Map<Seq<char>, RemoteEventView>,
    source: Seq<char>,
    push_here: bool,
    uid: Seq<char>,
    at: int,
)
    requires
        state.dom().finite(),
        0 <= at < records.len(),
        records[at].source == Some(source),
        records[at].uid == Some(uid),
    ensures
        ({
            let plan = crate::sync::planned(records, state, remote, source, push_here);
            plan.updates.contains((uid, records[at])) <==> {
                &&& state.contains_key(uid)
                &&& state[uid].source == source
                &&& remote.contains_key(uid)
                &&& !remote[uid].recurring
                &&& remote[uid].instances.len() <= 1
                &&& forall|i: int|
                    0 <= i < records.len() && i != at ==> !((#[trigger] records[i]).source == Some(
                        source,
                    ) && records[i].uid == Some(uid))
                &&& records[at].date != state[uid].date || records[at].time != state[uid].time
                    || records[at].title != state[uid].title
            }
        }),
{
    let plan = crate::sync::planned(records, state, remote, source, push_here);
    crate::sync_laws::law_requests(records, state, remote, source, push_here);
    crate::sync_laws::lemma_last_local(records, source, uid);
    assert(records.contains(records[at]));
    let last = crate::sync::last_local(records, source, uid)->0;
    let k = choose|k: int| 0 <= k < records.len() && records[k] == last;
    let alone = forall|i: int|
        0 <= i < records.len() && i != at ==> !((#[trigger] records[i]).source == Some(source)
            && records[i].uid == Some(uid));
    if alone {
        assert(k == at);
        assert(crate::sync::is_one_record(records, source, uid)) by {
            assert forall|i: int, j: int|
                0 <= i < records.len() && 0 <= j < records.len() && crate::sync::mirrors_uid(
                    #[trigger] records[i],
                    source,
                    uid,
                ) && crate::sync::mirrors_uid(#[trigger] records[j], source, uid) implies i == j by {
                assert(i == at && j == at);
            }
        }
    }
    if crate::sync::is_one_record(records, source, uid) {
        assert forall|i: int| 0 <= i < records.len() && i != at implies !((
        #[trigger] records[i]).source == Some(source) && records[i].uid == Some(uid)) by {
            if crate::sync::mirrors_uid(records[i], source, uid) {
                assert(crate::sync::mirrors_uid(records[at], source, uid));
            }
        }
    }
    assert(plan.updates.contains((uid, records[at])) == (crate::sync::to_update(
        records,
        state,
        remote,
        source,
        uid,
    ) && crate::sync::last_local(records, source, uid) == Some(records[at])));
}

/// What a change says is what a record of the file says that carries the identity of the event
/// and the mark of the account; no event is changed twice, and none that is deleted.
pub proof fn law_changes_come_from_the_file(
    records: Seq<RecordView>,
    state: Map<Seq<char>, SyncedView>,
    remote: Map<Seq<char>, RemoteEventView>,
    source: Seq<char>,
    push_here: bool,
    k: int,
)
    requires
        state.dom().finite(),
        0 <= k < crate::sync::planned(records, state, remote, source, push_here).updates.len(),
    ensures
        ({
            let plan = crate::sync::planned(records, state, remote, source, push_here);
            let (uid, r) = plan.updates[k];
            &&& records.contains(r)
            &&& r.source == Some(source)
            &&& r.uid == Some(uid)
            &&& !plan.deletes.contains(uid)
            &&& forall|j: int|
                0 <= j < plan.updates.len() && j != k ==> (#[trigger] plan.updates[j]).0 != uid
        }),
{
    let plan = crate::sync::planned(records, state, remote, source, push_here);
    let uids = crate::uid_map::in_order(state.dom());
    let upd = |u: Seq<char>| crate::sync::to_update(records, state, remote, source, u);
    crate::uid_map::lemma_listed(state.dom());
    crate::uid_map::lemma_ascending_once(uids);
    crate::sync::lemma_filtered(uids, upd);
    crate::sync::lemma_planned(records, state, remote, source, push_here);
    let uid = plan.updates[k].0;
    crate::sync_laws::lemma_last_local(records, source, uid);
    assert(crate::sync::to_update(records, state, remote, source, uid));
    let picked = uids.filter(upd);
    assert forall|j: int| 0 <= j < plan.updates.len() && j != k implies (
    #[trigger] plan.updates[j]).0 != uid by {
        assert(picked[j] == plan.updates[j].0);
        assert(picked[k] == uid);
    }
}

// ── Creations and what is forgotten ───────────────────────────────────────

/// An event is created on the server for exactly those records of the file that have neither an
/// identity nor a mark, in the order of the file, and on the account that typed events go to
/// only.
pub proof fn law_typed_records_are_created(
    records: Seq<RecordView>,
    state: Map<Seq<char>, SyncedView>,
    remote: Map<Seq<char>, RemoteEventView>,
    source: Seq<char>,
    push_here: bool,
    i: int,
)
    ensures
        ({
            let creates = crate::sync::planned(records, state, remote, source, push_here).creates;
            &&& creates.contains(i) <==> push_here && 0 <= i < records.len() && records[i].uid is None
                && records[i].source is None
            &&& forall|j: int, k: int|
                0 <= j < k < creates.len() ==> #[trigger] creates[j] < #[trigger] creates[k]
        }),
{
    crate::sync::lemma_typed_places(records);
    lemma_typed_ascend(records);
    if !push_here {
        let creates = crate::sync::planned(records, state, remote, source, push_here).creates;
        assert(creates.len() == 0);
    }
}

proof fn lemma_typed_ascend(records: Seq<RecordView>)
    ensures
        ({
            let places = crate::sync::typed_places(records);
            &&& forall|j: int, k: int|
                0 <= j < k < places.len() ==> #[trigger] places[j] < #[trigger] places[k]
            &&& forall|j: int| 0 <= j < places.len() ==> #[trigger] places[j] < records.len()
        }),
    decreases records.len(),
{
    if records.len() > 0 {
        lemma_typed_ascend(records.drop_last());
        let before = crate::sync::typed_places(records.drop_last());
        let places = crate::sync::typed_places(records);
        assert forall|j: int| 0 <= j < before.len() implies places[j] == #[trigger] before[j] by {}
        assert forall|j: int| 0 <= j < places.len() implies #[trigger] places[j]
            < records.len() by {
            if j < before.len() {
                assert(before[j] < records.len());
            }
        }
        assert forall|j: int, k: int| 0 <= j < k < places.len() implies #[trigger] places[j]
            < #[trigger] places[k] by {
            assert(before[j] < records.len() - 1);
            if k < before.len() {
                assert(before[j] < before[k]);
            }
        }
    }
}

/// The state forgets exactly the events of the account that the server no longer has, or has as
/// ones that repeat; and it neither changes nor deletes what it forgets.
pub proof fn law_vanished_events_are_forgotten(
    records: Seq<RecordView>,
    state: Map<Seq<char>, SyncedView>,
    remote: Map<Seq<char>, RemoteEventView>,
    source: Seq<char>,
    push_here: bool,
    uid: Seq<char>,
)
    requires
        state.dom().finite(),
    ensures
        ({
            let plan = crate::sync::planned(records, state, remote, source, push_here);
            plan.forget.contains(uid) <==> {
                &&& state.contains_key(uid)
                &&& state[uid].source == source
                &&& !remote.contains_key(uid) || remote[uid].recurring
            }
        }),
{
    crate::uid_map::lemma_listed(state.dom());
    crate::sync::lemma_planned(records, state, remote, source, push_here);
}

// ── The requests ──────────────────────────────────────────────────────────

/// The requests of a pass: one for each deletion, then one for each change, then one for each
/// creation. A deletion goes to the address and names the tag that the state has; a change to the
/// address and names the tag that the server has now; a creation goes to the calendar for typed
/// events. Then nothing is left to request.
pub proof fn law_each_request_is_made(p: crate::sync::PassView)
    requires
        crate::sync::valid_pass(p),
    ensures
        ({
            let d = p.plan.deletes.len();
            let u = p.plan.updates.len();
            let c = p.plan.creates.len();
            &&& p.done < d ==> {
                let uid = p.plan.deletes[p.done];
                match crate::sync::step_of(p) {
                    Ok(crate::sync::StepView::Delete { uid: v, url, etag }) => v == uid && etag
                        == p.state[uid].etag && crate::url::url_read(p.state[uid].url) == Some(
                        url,
                    ),
                    Err(url) => url == p.state[uid].url && crate::url::url_read(url) is None,
                    _ => false,
                }
            }
            &&& d <= p.done < d + u ==> {
                let (uid, r) = p.plan.updates[p.done - d];
                crate::sync::step_of(p) matches Ok(
                    crate::sync::StepView::Update { uid: v, url, etag, lines, record },
                ) && v == uid && record == r && url == p.remote[uid].url && etag
                    == p.remote[uid].etag && lines == p.remote[uid].lines
            }
            &&& d + u <= p.done < d + u + c ==> {
                crate::sync::step_of(p) matches Ok(crate::sync::StepView::Create { target, record })
                    && p.target == Some(target) && record == p.records[p.plan.creates[p.done - d
                    - u]]
            }
            &&& p.done == d + u + c ==> crate::sync::step_of(p) == Ok::<
                crate::sync::StepView,
                Seq<char>,
            >(crate::sync::StepView::Done)
            &&& p.done <= d + u + c
        }),
{
}

/// Whether nothing of a pass but one event and the count of requests differs from another: the
/// file, the plan, the mark and where typed records go.
pub open spec fn goes_on(p: crate::sync::PassView, q: crate::sync::PassView) -> bool {
    &&& q.done == p.done + 1
    &&& q.records == p.records
    &&& q.plan == p.plan
    &&& q.source == p.source
    &&& q.target == p.target
}

/// Each answer takes the pass one request on. A deleted event is gone on the server and in the
/// state. A changed event has the one instance that the record says, carrying the identity and
/// the mark, under its new tag, and the state says the same. A created event has the identity,
/// the address and the tag that the server gave, and the one instance that the record says; the
/// record it was typed as is used up. A failed request changes nothing.
pub proof fn law_answers(
    p: crate::sync::PassView,
    uid: Seq<char>,
    url: Seq<char>,
    etag: Seq<char>,
)
    requires
        crate::sync::valid_pass(p),
    ensures
        ({
            let q = crate::sync::after_failure(p);
            goes_on(p, q) && q.consumed == p.consumed && q.state == p.state && q.remote == p.remote
        }),
        p.done < p.plan.deletes.len() ==> {
            let q = crate::sync::after_delete(p);
            let u = p.plan.deletes[p.done];
            &&& goes_on(p, q)
            &&& q.consumed == p.consumed
            &&& !q.remote.contains_key(u)
            &&& !q.state.contains_key(u)
        },
        p.plan.deletes.len() <= p.done < p.plan.deletes.len() + p.plan.updates.len() ==> {
            let q = crate::sync::after_update(p, etag);
            let (u, r) = p.plan.updates[p.done - p.plan.deletes.len()];
            &&& goes_on(p, q)
            &&& q.consumed == p.consumed
            &&& is_now(q, u, p.remote[u].url, etag, r)
        },
        p.plan.deletes.len() + p.plan.updates.len() <= p.done < p.plan.deletes.len()
            + p.plan.updates.len() + p.plan.creates.len() ==> {
            let q = crate::sync::after_create(p, uid, url, etag);
            let at = p.plan.creates[p.done - p.plan.deletes.len() - p.plan.updates.len()];
            &&& goes_on(p, q)
            &&& q.consumed.contains(at)
            &&& forall|i: int|
                i != at ==> (#[trigger] q.consumed.contains(i) <==> p.consumed.contains(i))
            &&& is_now(q, uid, url, etag, p.records[at])
        },
{
}

/// Whether an event is on the server and in the state of a pass as a record says it.
pub open spec fn is_now(
    q: crate::sync::PassView,
    uid: Seq<char>,
    url: Seq<char>,
    etag: Seq<char>,
    r: RecordView,
) -> bool {
    &&& q.remote.contains_key(uid)
    &&& q.remote[uid].url == url
    &&& q.remote[uid].etag == etag
    &&& !q.remote[uid].recurring
    &&& q.remote[uid].instances.len() == 1
    &&& q.remote[uid].instances[0] == (RecordView {
        date: r.date,
        time: r.time,
        title: r.title,
        uid: Some(uid),
        source: Some(q.source),
        recurring: false,
    })
    &&& q.state.contains_key(uid)
    &&& q.state[uid] == (SyncedView {
        source: q.source,
        url,
        etag,
        date: r.date,
        time: r.time,
        title: r.title,
    })
}

// ── What a pass leaves behind ─────────────────────────────────────────────

/// After a pass the state holds every event of the server that does not repeat and has an
/// instance, with its address, its tag and what its first instance says; of the others what it
/// held, but for what it forgets.
pub proof fn law_state_after_a_pass(p: crate::sync::PassView, uid: Seq<char>)
    ensures
        ({
            let s = crate::sync::final_state(p);
            if p.remote.contains_key(uid) && !p.remote[uid].recurring
                && p.remote[uid].instances.len() > 0 {
                &&& s.contains_key(uid)
                &&& s[uid].source == p.source
                &&& s[uid].url == p.remote[uid].url
                &&& s[uid].etag == p.remote[uid].etag
                &&& s[uid].date == p.remote[uid].instances[0].date
                &&& s[uid].time == p.remote[uid].instances[0].time
                &&& s[uid].title == p.remote[uid].instances[0].title
            } else {
                &&& s.contains_key(uid) <==> p.state.contains_key(uid) && !p.plan.forget.contains(
                    uid,
                )
                &&& s.contains_key(uid) ==> s[uid] == p.state[uid]
            }
        }),
{
}

/// After a pass the file is the records that neither mirror the account nor are used up, as they
/// stood and in their order, followed by the instances of the events of the account, those of one
/// event after those of another in the order of the identities.
pub proof fn law_file_after_a_pass(p: crate::sync::PassView)
    requires
        p.remote.dom().finite(),
    ensures
        ({
            let places = Seq::new(p.records.len(), |i: int| i).filter(
                |i: int| p.records[i].source != Some(p.source) && !p.consumed.contains(i),
            );
            let uids = crate::uid_map::in_order(p.remote.dom());
            &&& crate::uid_map::ascending(uids)
            &&& uids.to_set() == p.remote.dom()
            &&& crate::sync::final_records(p) == places.map_values(|i: int| p.records[i])
                + uids.map_values(|u: Seq<char>| p.remote[u].instances).flatten()
        }),
{
    let uids = crate::uid_map::in_order(p.remote.dom());
    crate::uid_map::lemma_listed(p.remote.dom());
    lemma_kept_places(p.records, p.source, p.consumed, p.records.len() as int);
    assert(p.records.take(p.records.len() as int) =~= p.records);
    lemma_flat_instances(uids, p.remote);
}

proof fn lemma_kept_places(
    records: Seq<RecordView>,
    source: Seq<char>,
    consumed: Set<int>,
    n: int,
)
    requires
        0 <= n <= records.len(),
    ensures
        crate::sync::kept_records(records.take(n), source, consumed) == Seq::new(
            n as nat,
            |i: int| i,
        ).filter(
            |i: int| records[i].source != Some(source) && !consumed.contains(i),
        ).map_values(|i: int| records[i]),
    decreases n,
{
    reveal(Seq::filter);
    let keeps = |i: int| records[i].source != Some(source) && !consumed.contains(i);
    let get = |i: int| records[i];
    let all = Seq::new(n as nat, |i: int| i);
    if n > 0 {
        lemma_kept_places(records, source, consumed, n - 1);
        let rest = Seq::new((n - 1) as nat, |i: int| i);
        assert(all.drop_last() =~= rest);
        assert(records.take(n).drop_last() =~= records.take(n - 1));
        assert(records.take(n).last() == records[n - 1]);
        assert(all.last() == n - 1);
        assert(rest.filter(keeps).push(n - 1).map_values(get) =~= rest.filter(keeps).map_values(
            get,
        ).push(records[n - 1]));
    } else {
        assert(all.filter(keeps).map_values(get) =~= Seq::<RecordView>::empty());
    }
}

proof fn lemma_flat_instances(uids: Seq<Seq<char>>, remote: Map<Seq<char>, RemoteEventView>)
    ensures
        crate::sync::all_instances(uids, remote) == uids.map_values(
            |u: Seq<char>| remote[u].instances,
        ).flatten(),
    decreases uids.len(),
{
    let get = |u: Seq<char>| remote[u].instances;
    let lists = uids.map_values(get);
    if uids.len() > 0 {
        lemma_flat_instances(uids.drop_last(), remote);
        assert(lists =~= uids.drop_last().map_values(get).push(remote[uids.last()].instances));
        uids.drop_last().map_values(get).lemma_flatten_push(remote[uids.last()].instances);
    } else {
        assert(lists.flatten() =~= Seq::<RecordView>::empty());
    }
}

// ── The calendar for typed events ─────────────────────────────────────────

/// Typed events go to the first calendar with the wanted name, in any letter case, and nowhere
/// where there is none. Where no name is wanted they go to the first primary calendar, to the
/// first of all where none is primary, and nowhere where the account has none.
pub proof fn law_calendar_for_typed_events(calendars: Seq<CalendarView>, wanted: Option<Seq<char>>)
    ensures
        match (wanted, crate::remote::target_place(calendars, wanted)) {
            (Some(name), Ok(at)) => {
                &&& 0 <= at < calendars.len()
                &&& crate::text::same_letters(calendars[at].name, name)
                &&& forall|i: int|
                    0 <= i < at ==> !crate::text::same_letters((#[trigger] calendars[i]).name, name)
            },
            (Some(name), Err(e)) => {
                &&& e == crate::remote::SyncError::NoSuchCalendar
                &&& forall|i: int|
                    0 <= i < calendars.len() ==> !crate::text::same_letters(
                        (#[trigger] calendars[i]).name,
                        name,
                    )
            },
            (None, Ok(at)) => {
                &&& 0 <= at < calendars.len()
                &&& forall|i: int| 0 <= i < at ==> !(#[trigger] calendars[i]).primary
                &&& calendars[at].primary || (at == 0 && forall|i: int|
                    0 <= i < calendars.len() ==> !(#[trigger] calendars[i]).primary)
            },
            (None, Err(e)) => e == crate::remote::SyncError::NoCalendar && calendars.len() == 0,
        },
{
    match wanted {
        Some(name) => lemma_first_named(calendars, name),
        None => lemma_first_primary(calendars),
    }
}

proof fn lemma_first_named(calendars: Seq<CalendarView>, name: Seq<char>)
    ensures
        ({
            let at = crate::remote::first_named(calendars, name);
            &&& 0 <= at <= calendars.len()
            &&& at < calendars.len() ==> crate::text::same_letters(calendars[at].name, name)
            &&& forall|i: int|
                0 <= i < at ==> !crate::text::same_letters((#[trigger] calendars[i]).name, name)
        }),
    decreases calendars.len(),
{
    if calendars.len() > 0 {
        let rest = calendars.drop_first();
        lemma_first_named(rest, name);
        let at = crate::remote::first_named(calendars, name);
        assert forall|i: int| 0 <= i < at implies !crate::text::same_letters(
            (#[trigger] calendars[i]).name,
            name,
        ) by {
            if i > 0 {
                assert(rest[i - 1] == calendars[i]);
            }
        }
    }
}

proof fn lemma_first_primary(calendars: Seq<CalendarView>)
    ensures
        ({
            let at = crate::remote::first_primary(calendars);
            &&& 0 <= at <= calendars.len()
            &&& at < calendars.len() ==> calendars[at].primary
            &&& forall|i: int| 0 <= i < at ==> !(#[trigger] calendars[i]).primary
        }),
    decreases calendars.len(),
{
    if calendars.len() > 0 {
        let rest = calendars.drop_first();
        lemma_first_primary(rest);
        let at = crate::remote::first_primary(calendars);
        assert forall|i: int| 0 <= i < at implies !(#[trigger] calendars[i]).primary by {
            if i > 0 {
                assert(rest[i - 1] == calendars[i]);
            }
        }
    }
}

/// A pass begins with nothing requested and no typed record taken, over the file, the state and the
/// account as they are; it creates typed records only where there is a calendar for them.
pub proof fn law_pass_begins(
    source: Seq<char>,
    records: Seq<RecordView>,
    state: Map<Seq<char>, SyncedView>,
    remote: Map<Seq<char>, RemoteEventView>,
    target: Option<Seq<char>>,
)
    ensures
        ({
            let p = crate::sync::begun(source, records, state, remote, target);
            &&& p.done == 0
            &&& p.source == source
            &&& p.records == records
            &&& p.state == state
            &&& p.remote == remote
            &&& p.target == target
            &&& forall|i: int| !#[trigger] p.consumed.contains(i)
            &&& p.plan == crate::sync::planned(records, state, remote, source, target is Some)
            &&& target is None ==> p.plan.creates.len() == 0
        }),
{
}

} // verus!
