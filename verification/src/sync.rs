//! One pass of the sync of one account: a three-way merge of the file, the server and the
//! state of the last pass.
//!
//! A pass first plans which deletions, changes and creations to push. The server is then asked
//! for one after the other, and what came of each is reported. At the end the state holds
//! every event of the server that does not repeat, and the file the fresh mirror.
use vstd::prelude::*;

use crate::record::{copy_opt, opt_is, synced, EventRecord, PushTarget, SyncState};
use crate::remote::{pick_target, Remote, RemoteEvent, SyncError};
use crate::text::{copy_texts, text_eq, to_decimal};
use crate::uid_map::UidMap;
use crate::url::parse_url;

verus! {

// ── What the three sides say ──────────────────────────────────────────────

/// The synced events by identity.
pub open spec fn state_views(m: Map<Seq<char>, crate::record::SyncedEvent>) -> Map<
    Seq<char>,
    crate::record::SyncedView,
> {
    m.map_values(|e: crate::record::SyncedEvent| e@)
}

/// Whether the state holds an event of the account.
pub open spec fn owned(
    state: Map<Seq<char>, crate::record::SyncedView>,
    source: Seq<char>,
    uid: Seq<char>,
) -> bool {
    state.contains_key(uid) && state[uid].source == source
}

/// Whether the server no longer holds an event, or it repeats.
pub open spec fn gone(
    remote: Map<Seq<char>, crate::remote::RemoteEventView>,
    uid: Seq<char>,
) -> bool {
    !remote.contains_key(uid) || remote[uid].recurring
}

/// Whether a record mirrors the event of the account with this identity.
pub open spec fn mirrors_uid(
    r: crate::record::RecordView,
    source: Seq<char>,
    uid: Seq<char>,
) -> bool {
    r.source == Some(source) && r.uid == Some(uid)
}

/// The last record of the file that mirrors the event of the account with this identity.
pub open spec fn last_local(
    records: Seq<crate::record::RecordView>,
    source: Seq<char>,
    uid: Seq<char>,
) -> Option<crate::record::RecordView>
    decreases records.len(),
{
    if records.len() == 0 {
        None
    } else if mirrors_uid(records.last(), source, uid) {
        Some(records.last())
    } else {
        last_local(records.drop_last(), source, uid)
    }
}

/// Whether the state is to forget an event.
pub open spec fn to_forget(
    state: Map<Seq<char>, crate::record::SyncedView>,
    remote: Map<Seq<char>, crate::remote::RemoteEventView>,
    source: Seq<char>,
    uid: Seq<char>,
) -> bool {
    owned(state, source, uid) && gone(remote, uid)
}

/// Whether a deletion is to be pushed: the event is known and on the server, and the file no
/// longer has it.
pub open spec fn to_delete(
    records: Seq<crate::record::RecordView>,
    state: Map<Seq<char>, crate::record::SyncedView>,
    remote: Map<Seq<char>, crate::remote::RemoteEventView>,
    source: Seq<char>,
    uid: Seq<char>,
) -> bool {
    owned(state, source, uid) && !gone(remote, uid) && last_local(records, source, uid) is None
}

/// Whether at most one record of the file mirrors the event of the account with this identity.
pub open spec fn is_one_record(
    records: Seq<crate::record::RecordView>,
    source: Seq<char>,
    uid: Seq<char>,
) -> bool {
    forall|i: int, j: int|
        0 <= i < records.len() && 0 <= j < records.len() && mirrors_uid(
            #[trigger] records[i],
            source,
            uid,
        ) && mirrors_uid(#[trigger] records[j], source, uid) ==> i == j
}

/// Whether a change is to be pushed: the event is known and on the server, and one record of the
/// file mirrors it, which says something else than the state. An event that is several records,
/// such as a whole-day event of several days, cannot be edited in the file as one thing: it is
/// mirrored read-only, whether the server still has it as several or the file alone does.
pub open spec fn to_update(
    records: Seq<crate::record::RecordView>,
    state: Map<Seq<char>, crate::record::SyncedView>,
    remote: Map<Seq<char>, crate::remote::RemoteEventView>,
    source: Seq<char>,
    uid: Seq<char>,
) -> bool {
    &&& owned(state, source, uid)
    &&& !gone(remote, uid)
    &&& remote[uid].instances.len() <= 1
    &&& last_local(records, source, uid) is Some
    &&& is_one_record(records, source, uid)
    &&& !crate::record::unchanged(state[uid], last_local(records, source, uid)->0)
}

/// Whether a record was typed here and is on no server yet.
pub open spec fn is_typed(r: crate::record::RecordView) -> bool {
    r.source is None && r.uid is None
}

/// The places of the typed records, in order.
pub open spec fn typed_places(records: Seq<crate::record::RecordView>) -> Seq<int>
    decreases records.len(),
{
    if records.len() == 0 {
        Seq::empty()
    } else if is_typed(records.last()) {
        typed_places(records.drop_last()).push(records.len() - 1)
    } else {
        typed_places(records.drop_last())
    }
}

// ── The plan ──────────────────────────────────────────────────────────────

/// What a pass pushes, and what the state forgets.
pub struct Plan {
    pub deletes: Vec<String>,
    pub updates: Vec<(String, EventRecord)>,
    pub creates: Vec<usize>,
    pub forget: Vec<String>,
}

#[verifier::ext_equal]
pub struct PlanView {
    pub deletes: Seq<Seq<char>>,
    pub updates: Seq<(Seq<char>, crate::record::RecordView)>,
    pub creates: Seq<int>,
    pub forget: Seq<Seq<char>>,
}

/// The identities and the records of changes.
pub open spec fn update_views(updates: Seq<(String, EventRecord)>) -> Seq<
    (Seq<char>, crate::record::RecordView),
> {
    Seq::new(updates.len(), |i: int| (updates[i].0@, updates[i].1@))
}

impl View for Plan {
    type V = PlanView;

    open spec fn view(&self) -> PlanView {
        PlanView {
            deletes: crate::text::texts(self.deletes@),
            updates: update_views(self.updates@),
            creates: Seq::new(self.creates@.len(), |i: int| self.creates@[i] as int),
            forget: crate::text::texts(self.forget@),
        }
    }
}

/// The plan of a pass: what the account is to delete, change and create, and what the state
/// forgets, each in the order of the identities. New events are created on one account only.
pub open spec fn planned(
    records: Seq<crate::record::RecordView>,
    state: Map<Seq<char>, crate::record::SyncedView>,
    remote: Map<Seq<char>, crate::remote::RemoteEventView>,
    source: Seq<char>,
    push_here: bool,
) -> PlanView {
    let uids = crate::uid_map::in_order(state.dom());
    PlanView {
        deletes: uids.filter(|u: Seq<char>| to_delete(records, state, remote, source, u)),
        updates: uids.filter(
            |u: Seq<char>| to_update(records, state, remote, source, u),
        ).map_values(|u: Seq<char>| (u, last_local(records, source, u)->0)),
        creates: if push_here {
            typed_places(records)
        } else {
            Seq::empty()
        },
        forget: uids.filter(|u: Seq<char>| to_forget(state, remote, source, u)),
    }
}

/// How many events of the account the state knows.
pub open spec fn known_count(
    state: Map<Seq<char>, crate::record::SyncedView>,
    source: Seq<char>,
) -> nat {
    crate::uid_map::in_order(state.dom()).filter(|u: Seq<char>| owned(state, source, u)).len()
}

/// Whether so many deletions are more than a user plausibly made: more than five, and more
/// than half of what is known.
pub open spec fn too_many_deletes(deletes: int, known: int) -> bool {
    deletes > 5 && deletes * 2 > known
}

/// The place of the last record that mirrors an event of the account.
fn find_local(records: &Vec<EventRecord>, source: &str, uid: &str) -> (at: Option<usize>)
    ensures
        match at {
            Some(i) => i < records@.len() && mirrors_uid(records@[i as int]@, source@, uid@)
                && last_local(crate::record::record_views(records@), source@, uid@) == Some(
                records@[i as int]@,
            ),
            None => last_local(crate::record::record_views(records@), source@, uid@) is None,
        },
{
    let ghost all = crate::record::record_views(records@);
    let mut i: usize = records.len();
    assert(all.take(i as int) =~= all);
    while i > 0
        invariant
            all == crate::record::record_views(records@),
            i <= records@.len(),
            last_local(all, source@, uid@) == last_local(all.take(i as int), source@, uid@),
        decreases i,
    {
        assert(all.take(i as int).drop_last() =~= all.take(i - 1));
        assert(all.take(i as int).last() == records@[i - 1]@);
        if opt_is(&records[i - 1].source, source) && opt_is(&records[i - 1].uid, uid) {
            return Some(i - 1);
        }
        i = i - 1;
    }
    None
}

/// Whether the record at a place is the only one that mirrors an event of the account.
fn is_alone_at(records: &Vec<EventRecord>, source: &str, uid: &str, at: usize) -> (r: bool)
    requires
        at < records@.len(),
        mirrors_uid(records@[at as int]@, source@, uid@),
    ensures
        r == is_one_record(crate::record::record_views(records@), source@, uid@),
{
    let ghost all = crate::record::record_views(records@);
    let mut i: usize = 0;
    while i < records.len()
        invariant
            all == crate::record::record_views(records@),
            at < records@.len(),
            i <= records@.len(),
            mirrors_uid(records@[at as int]@, source@, uid@),
            forall|j: int|
                0 <= j < i && j != at ==> !mirrors_uid(#[trigger] all[j], source@, uid@),
        decreases records@.len() - i,
    {
        if i != at && opt_is(&records[i].source, source) && opt_is(&records[i].uid, uid) {
            assert(mirrors_uid(all[i as int], source@, uid@));
            assert(mirrors_uid(all[at as int], source@, uid@));
            return false;
        }
        assert(all[i as int] == records@[i as int]@);
        i = i + 1;
    }
    true
}

/// The places of the typed records.
fn find_typed(records: &Vec<EventRecord>) -> (places: Vec<usize>)
    ensures
        Seq::new(places@.len(), |i: int| places@[i] as int) == typed_places(
            crate::record::record_views(records@),
        ),
        forall|k: int| 0 <= k < places@.len() ==> #[trigger] places@[k] < records@.len(),
{
    let ghost all = crate::record::record_views(records@);
    let mut places: Vec<usize> = Vec::new();
    let mut i: usize = 0;
    while i < records.len()
        invariant
            all == crate::record::record_views(records@),
            i <= records@.len(),
            Seq::new(places@.len(), |i: int| places@[i] as int) == typed_places(
                all.take(i as int),
            ),
            forall|k: int| 0 <= k < places@.len() ==> #[trigger] places@[k] < i,
        decreases records@.len() - i,
    {
        assert(all.take(i + 1).drop_last() =~= all.take(i as int));
        assert(all.take(i + 1).last() == records@[i as int]@);
        let ghost before = Seq::new(places@.len(), |i: int| places@[i] as int);
        if records[i].source.is_none() && records[i].uid.is_none() {
            places.push(i);
            assert(Seq::new(places@.len(), |i: int| places@[i] as int) =~= before.push(i as int));
        }
        i = i + 1;
    }
    assert(all.take(i as int) =~= all);
    places
}

/// Plans a pass. Refuses one that would delete most of what is known, unless it is forced.
pub fn plan_pass(
    records: &Vec<EventRecord>,
    state: &SyncState,
    remote: &UidMap<RemoteEvent>,
    source: &str,
    push_here: bool,
    force_deletes: bool,
) -> (plan: Result<Plan, SyncError>)
    requires
        state.events.wf(),
        remote.wf(),
    ensures
        ({
            let p = planned(
                crate::record::record_views(records@),
                state_views(state.events@),
                crate::remote::remote_views(remote@),
                source@,
                push_here,
            );
            let known = known_count(state_views(state.events@), source@);
            if !force_deletes && too_many_deletes(p.deletes.len() as int, known as int) {
                plan matches Err(SyncError::RefusedDeletes { count, known: k }) && count
                    == p.deletes.len() && k == known
            } else {
                plan matches Ok(plan) && plan@ == p
            }
        }),
        plan matches Ok(plan) ==> forall|k: int|
            0 <= k < plan.creates@.len() ==> #[trigger] plan.creates@[k] < records@.len(),
{
    let ghost uids = state.events.keys();
    let ghost recs = crate::record::record_views(records@);
    let ghost st = state_views(state.events@);
    let ghost rem = crate::remote::remote_views(remote@);
    let ghost del = |u: Seq<char>| to_delete(recs, st, rem, source@, u);
    let ghost upd = |u: Seq<char>| to_update(recs, st, rem, source@, u);
    let ghost fgt = |u: Seq<char>| to_forget(st, rem, source@, u);
    let ghost own = |u: Seq<char>| owned(st, source@, u);
    let ghost with_record = |u: Seq<char>| (u, last_local(recs, source@, u)->0);
    let mut deletes: Vec<String> = Vec::new();
    let mut updates: Vec<(String, EventRecord)> = Vec::new();
    let mut forget: Vec<String> = Vec::new();
    let mut known: usize = 0;
    let mut i: usize = 0;
    proof {
        reveal(Seq::filter);
        state.events.lemma_entries();
        state.events.lemma_keys_in_order();
        assert(st.dom() =~= state.events@.dom());
    }
    assert(crate::text::texts(deletes@) =~= Seq::empty());
    assert(crate::text::texts(forget@) =~= Seq::empty());
    assert(update_views(updates@) =~= Seq::empty());
    assert(uids.take(0).filter(upd).map_values(with_record) =~= Seq::empty());
    while i < state.events.len()
        invariant
            state.events.wf(),
            remote.wf(),
            uids == state.events.keys(),
            recs == crate::record::record_views(records@),
            st == state_views(state.events@),
            rem == crate::remote::remote_views(remote@),
            del == (|u: Seq<char>| to_delete(recs, st, rem, source@, u)),
            upd == (|u: Seq<char>| to_update(recs, st, rem, source@, u)),
            fgt == (|u: Seq<char>| to_forget(st, rem, source@, u)),
            own == (|u: Seq<char>| owned(st, source@, u)),
            with_record == (|u: Seq<char>| (u, last_local(recs, source@, u)->0)),
            forall|j: int|
                0 <= j < state.events.keys().len() ==> {
                    &&& state.events@.contains_key(#[trigger] state.events.keys()[j])
                    &&& state.events@[state.events.keys()[j]] == state.events.values()[j]
                },
            i <= uids.len(),
            deletes@.len() <= known <= i,
            crate::text::texts(deletes@) == uids.take(i as int).filter(del),
            update_views(updates@) == uids.take(i as int).filter(upd).map_values(with_record),
            crate::text::texts(forget@) == uids.take(i as int).filter(fgt),
            known == uids.take(i as int).filter(own).len(),
        decreases uids.len() - i,
    {
        reveal(Seq::filter);
        assert(uids.take(i + 1).drop_last() =~= uids.take(i as int));
        let ghost uid = uids[i as int];
        assert(uids.take(i + 1).last() == uid);
        assert(state.events@.contains_key(state.events.keys()[i as int]));
        assert(st[uid] == state.events.values()[i as int]@);
        let ghost d0 = crate::text::texts(deletes@);
        let ghost f0 = crate::text::texts(forget@);
        let ghost u0 = update_views(updates@);
        let key = state.events.key_at(i);
        let s = state.events.value_at(i);
        if text_eq(s.source.as_str(), source) {
            known = known + 1;
            let (held, several) = match remote.get(key.as_str()) {
                None => (false, false),
                Some(r) => (!r.recurring, r.instances.len() > 1),
            };
            assert(held == !gone(rem, uid));
            assert(held ==> several == (rem[uid].instances.len() > 1));
            if !held {
                forget.push(key.clone());
                assert(crate::text::texts(forget@) =~= f0.push(uid));
            } else {
                match find_local(records, source, key.as_str()) {
                    None => {
                        deletes.push(key.clone());
                        assert(crate::text::texts(deletes@) =~= d0.push(uid));
                    },
                    Some(at) => {
                        if !several && !s.matches(&records[at]) && is_alone_at(
                            records,
                            source,
                            key.as_str(),
                            at,
                        ) {
                            updates.push((key.clone(), records[at].clone()));
                            assert(update_views(updates@) =~= u0.push(with_record(uid)));
                            assert(uids.take(i as int).filter(upd).push(uid).map_values(
                                with_record,
                            ) =~= u0.push(with_record(uid)));
                        }
                    },
                }
            }
        }
        i = i + 1;
    }
    assert(uids.take(i as int) =~= uids);
    let ghost p = planned(recs, st, rem, source@, push_here);
    assert(p.deletes == crate::text::texts(deletes@));
    if !force_deletes && deletes.len() > 5 && deletes.len() > known - deletes.len() {
        return Err(SyncError::RefusedDeletes { count: deletes.len(), known });
    }
    let creates = if push_here {
        find_typed(records)
    } else {
        Vec::new()
    };
    let plan = Plan { deletes, updates, creates, forget };
    assert(plan@ =~= p);
    Ok(plan)
}

// ── The pass ──────────────────────────────────────────────────────────────

/// A pass under way: the two sides, the plan, how many of its steps are over, and which typed
/// records are on the server now.
pub struct Pass {
    source: String,
    records: Vec<EventRecord>,
    state: SyncState,
    remote: UidMap<RemoteEvent>,
    plan: Plan,
    target: Option<String>,
    done: u128,
    consumed: Vec<bool>,
}

#[verifier::ext_equal]
pub struct PassView {
    pub source: Seq<char>,
    pub records: Seq<crate::record::RecordView>,
    pub state: Map<Seq<char>, crate::record::SyncedView>,
    pub remote: Map<Seq<char>, crate::remote::RemoteEventView>,
    pub plan: PlanView,
    /// Where a typed record is created.
    pub target: Option<Seq<char>>,
    pub done: int,
    pub consumed: Set<int>,
}

/// One request to the server.
pub enum Step {
    /// Delete an event, if it still is the one with this tag.
    Delete { uid: String, url: String, etag: String },
    /// Change an event to what the record says.
    Update { uid: String, url: String, etag: String, lines: Vec<String>, record: EventRecord },
    /// Create an event on a calendar.
    Create { target: String, record: EventRecord },
    /// Nothing is left to request.
    Done,
}

pub enum StepView {
    Delete { uid: Seq<char>, url: Seq<char>, etag: Seq<char> },
    Update {
        uid: Seq<char>,
        url: Seq<char>,
        etag: Seq<char>,
        lines: Seq<Seq<char>>,
        record: crate::record::RecordView,
    },
    Create { target: Seq<char>, record: crate::record::RecordView },
    Done,
}

impl View for Step {
    type V = StepView;

    open spec fn view(&self) -> StepView {
        match *self {
            Step::Delete { uid, url, etag } => StepView::Delete {
                uid: uid@,
                url: url@,
                etag: etag@,
            },
            Step::Update { uid, url, etag, lines, record } => StepView::Update {
                uid: uid@,
                url: url@,
                etag: etag@,
                lines: crate::text::texts(lines@),
                record: record@,
            },
            Step::Create { target, record } => StepView::Create {
                target: target@,
                record: record@,
            },
            Step::Done => StepView::Done,
        }
    }
}

/// How many deletions, and deletions and changes, a plan has.
pub open spec fn deletes_end(plan: PlanView) -> int {
    plan.deletes.len() as int
}

pub open spec fn updates_end(plan: PlanView) -> int {
    deletes_end(plan) + plan.updates.len()
}

pub open spec fn creates_end(plan: PlanView) -> int {
    updates_end(plan) + plan.creates.len()
}

/// The next request of a pass: first the deletions, then the changes, then the creations. A
/// synced event whose address is not one stops the pass; that address is the error.
pub open spec fn step_of(p: PassView) -> Result<StepView, Seq<char>> {
    if p.done < deletes_end(p.plan) {
        let uid = p.plan.deletes[p.done];
        match crate::url::url_read(p.state[uid].url) {
            Some(url) => Ok(StepView::Delete { uid, url, etag: p.state[uid].etag }),
            None => Err(p.state[uid].url),
        }
    } else if p.done < updates_end(p.plan) {
        let (uid, record) = p.plan.updates[p.done - deletes_end(p.plan)];
        let event = p.remote[uid];
        Ok(
            StepView::Update {
                uid,
                url: event.url,
                etag: event.etag,
                lines: event.lines,
                record,
            },
        )
    } else if p.done < creates_end(p.plan) {
        let at = p.plan.creates[p.done - updates_end(p.plan)];
        Ok(StepView::Create { target: p.target->0, record: p.records[at] })
    } else {
        Ok(StepView::Done)
    }
}

/// The record that carries the identity of its event.
pub open spec fn identified(
    r: crate::record::RecordView,
    uid: Seq<char>,
    source: Seq<char>,
) -> crate::record::RecordView {
    crate::record::RecordView { uid: Some(uid), source: Some(source), recurring: false, ..r }
}

/// The pass once a request came to nothing.
pub open spec fn after_failure(p: PassView) -> PassView {
    PassView { done: p.done + 1, ..p }
}

/// The pass once the server has deleted the event.
pub open spec fn after_delete(p: PassView) -> PassView {
    let uid = p.plan.deletes[p.done];
    PassView {
        state: p.state.remove(uid),
        remote: p.remote.remove(uid),
        done: p.done + 1,
        ..p
    }
}

/// The pass once the server has changed the event and given it a tag.
pub open spec fn after_update(p: PassView, etag: Seq<char>) -> PassView {
    let (uid, local) = p.plan.updates[p.done - deletes_end(p.plan)];
    let event = p.remote[uid];
    PassView {
        state: p.state.insert(uid, crate::record::synced_view(p.source, event.url, etag, local)),
        remote: p.remote.insert(
            uid,
            crate::remote::RemoteEventView {
                etag,
                instances: seq![identified(local, uid, p.source)],
                ..event
            },
        ),
        done: p.done + 1,
        ..p
    }
}

/// The pass once the server has created the event and given it an identity, an address and a
/// tag.
pub open spec fn after_create(
    p: PassView,
    uid: Seq<char>,
    url: Seq<char>,
    etag: Seq<char>,
) -> PassView {
    let at = p.plan.creates[p.done - updates_end(p.plan)];
    let local = p.records[at];
    PassView {
        state: p.state.insert(uid, crate::record::synced_view(p.source, url, etag, local)),
        remote: p.remote.insert(
            uid,
            crate::remote::RemoteEventView {
                url,
                etag,
                recurring: false,
                instances: seq![identified(local, uid, p.source)],
                lines: Seq::empty(),
            },
        ),
        done: p.done + 1,
        consumed: p.consumed.insert(at),
        ..p
    }
}

/// The state after a pass: what it is to forget is gone, and every event that the server holds
/// and that does not repeat is there as the server has it.
pub open spec fn final_state(p: PassView) -> Map<Seq<char>, crate::record::SyncedView> {
    Map::new(
        |u: Seq<char>|
            is_held(p.remote, u) || (p.state.contains_key(u) && !p.plan.forget.contains(u)),
        |u: Seq<char>|
            if is_held(p.remote, u) {
                crate::record::synced_view(
                    p.source,
                    p.remote[u].url,
                    p.remote[u].etag,
                    p.remote[u].instances[0],
                )
            } else {
                p.state[u]
            },
    )
}

/// Whether the server holds an event that does not repeat and falls into the window.
pub open spec fn is_held(
    remote: Map<Seq<char>, crate::remote::RemoteEventView>,
    uid: Seq<char>,
) -> bool {
    remote.contains_key(uid) && !remote[uid].recurring && remote[uid].instances.len() > 0
}

/// The records of the file that a pass leaves alone: those of other accounts and those typed
/// here that are not on the server yet, in order.
pub open spec fn kept_records(
    records: Seq<crate::record::RecordView>,
    source: Seq<char>,
    consumed: Set<int>,
) -> Seq<crate::record::RecordView>
    decreases records.len(),
{
    if records.len() == 0 {
        Seq::empty()
    } else {
        let before = kept_records(records.drop_last(), source, consumed);
        if records.last().source != Some(source) && !consumed.contains(records.len() - 1) {
            before.push(records.last())
        } else {
            before
        }
    }
}

/// The instances of events one after the other.
pub open spec fn all_instances(
    uids: Seq<Seq<char>>,
    remote: Map<Seq<char>, crate::remote::RemoteEventView>,
) -> Seq<crate::record::RecordView>
    decreases uids.len(),
{
    if uids.len() == 0 {
        Seq::empty()
    } else {
        all_instances(uids.drop_last(), remote) + remote[uids.last()].instances
    }
}

/// The file after a pass: what the pass leaves alone, and then the instances of every event of
/// the account in the order of the identities.
pub open spec fn final_records(p: PassView) -> Seq<crate::record::RecordView> {
    kept_records(p.records, p.source, p.consumed) + all_instances(
        crate::uid_map::in_order(p.remote.dom()),
        p.remote,
    )
}

/// The invariant of a pass.
pub open spec fn valid_pass(p: PassView) -> bool {
    &&& 0 <= p.done <= creates_end(p.plan)
    &&& p.plan.deletes.no_duplicates()
    &&& forall|k: int|
        p.done <= k < p.plan.deletes.len() ==> owned(
            p.state,
            p.source,
            #[trigger] p.plan.deletes[k],
        )
    &&& forall|k: int|
        0 <= k < p.plan.updates.len() ==> {
            let uid = (#[trigger] p.plan.updates[k]).0;
            &&& owned(p.state, p.source, uid)
            &&& !gone(p.remote, uid)
            &&& !p.plan.deletes.contains(uid)
        }
    &&& forall|u: Seq<char>|
        #![trigger p.plan.forget.contains(u)]
        #![trigger p.state.contains_key(u)]
        {
            &&& owned(p.state, p.source, u) && gone(p.remote, u) ==> p.plan.forget.contains(u)
            &&& p.plan.forget.contains(u) && p.state.contains_key(u) ==> p.state[u].source
                == p.source
        }
    &&& forall|k: int|
        0 <= k < p.plan.creates.len() ==> {
            &&& 0 <= #[trigger] p.plan.creates[k] < p.records.len()
            &&& is_typed(p.records[p.plan.creates[k]])
        }
    &&& p.plan.creates.len() > 0 ==> p.target is Some
    &&& forall|i: int| #[trigger]
        p.consumed.contains(i) ==> 0 <= i < p.records.len() && is_typed(p.records[i])
}

/// What filtering keeps: it drops values, and no value comes to occur twice.
pub proof fn lemma_filtered<T>(s: Seq<T>, p: spec_fn(T) -> bool)
    ensures
        forall|x: T| #[trigger] s.filter(p).contains(x) <==> s.contains(x) && p(x),
        s.no_duplicates() ==> s.filter(p).no_duplicates(),
    decreases s.len(),
{
    reveal(Seq::filter);
    let f = s.filter(p);
    if s.len() > 0 {
        let (rest, last) = (s.drop_last(), s.last());
        lemma_filtered(rest, p);
        assert(s =~= rest.push(last));
        assert forall|x: T| #[trigger] f.contains(x) <==> s.contains(x) && p(x) by {
            if rest.filter(p).contains(x) {
                let i = choose|i: int| 0 <= i < rest.filter(p).len() && rest.filter(p)[i] == x;
                assert(f[i] == x);
            }
            if f.contains(x) {
                let i = choose|i: int| 0 <= i < f.len() && f[i] == x;
                if i < rest.filter(p).len() {
                    assert(rest.filter(p)[i] == x);
                    assert(rest.filter(p).contains(x));
                    let j = choose|j: int| 0 <= j < rest.len() && rest[j] == x;
                    assert(s[j] == x);
                } else {
                    assert(s[s.len() - 1] == x);
                }
            }
            if s.contains(x) && p(x) {
                let j = choose|j: int| 0 <= j < s.len() && s[j] == x;
                if j < rest.len() {
                    assert(rest[j] == x);
                    assert(rest.filter(p).contains(x));
                    let i = choose|i: int|
                        0 <= i < rest.filter(p).len() && rest.filter(p)[i] == x;
                    assert(f[i] == x);
                } else {
                    assert(f.last() == x);
                }
            }
        }
        if s.no_duplicates() {
            assert(rest.no_duplicates());
            if p(last) {
                assert(!rest.contains(last));
                assert(!rest.filter(p).contains(last));
            }
        }
    }
}

/// The typed places are places of typed records.
pub proof fn lemma_typed_places(records: Seq<crate::record::RecordView>)
    ensures
        forall|i: int| #[trigger]
            typed_places(records).contains(i) <==> 0 <= i < records.len() && is_typed(records[i]),
    decreases records.len(),
{
    let places = typed_places(records);
    if records.len() > 0 {
        let rest = records.drop_last();
        lemma_typed_places(rest);
        let before = typed_places(rest);
        assert forall|i: int| #[trigger]
            places.contains(i) <==> 0 <= i < records.len() && is_typed(records[i]) by {
            if before.contains(i) {
                let k = choose|k: int| 0 <= k < before.len() && before[k] == i;
                assert(places[k] == i);
                assert(is_typed(rest[i]));
            }
            if places.contains(i) {
                let k = choose|k: int| 0 <= k < places.len() && places[k] == i;
                if k < before.len() {
                    assert(before[k] == i);
                    assert(before.contains(i));
                }
            }
            if 0 <= i < rest.len() && is_typed(records[i]) {
                assert(before.contains(i));
                let k = choose|k: int| 0 <= k < before.len() && before[k] == i;
                assert(places[k] == i);
            }
            if i == records.len() - 1 && is_typed(records[i]) {
                assert(places.last() == i);
            }
        }
    }
}

/// What a plan holds.
pub proof fn lemma_planned(
    records: Seq<crate::record::RecordView>,
    state: Map<Seq<char>, crate::record::SyncedView>,
    remote: Map<Seq<char>, crate::remote::RemoteEventView>,
    source: Seq<char>,
    push_here: bool,
)
    requires
        crate::uid_map::lists(crate::uid_map::in_order(state.dom()), state.dom()),
    ensures
        ({
            let p = planned(records, state, remote, source, push_here);
            &&& p.deletes.no_duplicates()
            &&& forall|u: Seq<char>|
                p.deletes.contains(u) <==> to_delete(records, state, remote, source, u)
            &&& forall|u: Seq<char>|
                p.forget.contains(u) <==> to_forget(state, remote, source, u)
            &&& forall|k: int|
                0 <= k < p.updates.len() ==> {
                    &&& to_update(records, state, remote, source, (#[trigger] p.updates[k]).0)
                    &&& p.updates[k].1 == last_local(records, source, p.updates[k].0)->0
                }
            &&& forall|u: Seq<char>|
                to_update(records, state, remote, source, u) ==> exists|k: int|
                    0 <= k < p.updates.len() && (#[trigger] p.updates[k]).0 == u
        }),
{
    let uids = crate::uid_map::in_order(state.dom());
    let p = planned(records, state, remote, source, push_here);
    crate::uid_map::lemma_ascending_once(uids);
    assert forall|u: Seq<char>| #[trigger] uids.contains(u) == state.contains_key(u) by {
        assert(uids.to_set().contains(u) == state.dom().contains(u));
    }
    lemma_filtered(uids, |u: Seq<char>| to_delete(records, state, remote, source, u));
    lemma_filtered(uids, |u: Seq<char>| to_forget(state, remote, source, u));
    let upd = |u: Seq<char>| to_update(records, state, remote, source, u);
    lemma_filtered(uids, upd);
    let picked = uids.filter(upd);
    assert(p.updates.len() == picked.len());
    assert forall|k: int| 0 <= k < p.updates.len() implies {
        &&& to_update(records, state, remote, source, (#[trigger] p.updates[k]).0)
        &&& p.updates[k].1 == last_local(records, source, p.updates[k].0)->0
    } by {
        assert(picked.contains(picked[k]));
    }
    assert forall|u: Seq<char>| to_update(records, state, remote, source, u) implies exists|k: int|
        0 <= k < p.updates.len() && (#[trigger] p.updates[k]).0 == u by {
        assert(uids.contains(u));
        assert(picked.contains(u));
        let k = choose|k: int| 0 <= k < picked.len() && picked[k] == u;
        assert(p.updates[k].0 == u);
    }
}

/// A pass that is about to begin.
pub open spec fn begun(
    source: Seq<char>,
    records: Seq<crate::record::RecordView>,
    state: Map<Seq<char>, crate::record::SyncedView>,
    remote: Map<Seq<char>, crate::remote::RemoteEventView>,
    target: Option<Seq<char>>,
) -> PassView {
    PassView {
        source,
        records,
        state,
        remote,
        plan: planned(records, state, remote, source, target is Some),
        target,
        done: 0,
        consumed: Set::empty(),
    }
}

proof fn lemma_begun(
    source: Seq<char>,
    records: Seq<crate::record::RecordView>,
    state: Map<Seq<char>, crate::record::SyncedView>,
    remote: Map<Seq<char>, crate::remote::RemoteEventView>,
    target: Option<Seq<char>>,
)
    requires
        crate::uid_map::lists(crate::uid_map::in_order(state.dom()), state.dom()),
    ensures
        valid_pass(begun(source, records, state, remote, target)),
{
    let p = begun(source, records, state, remote, target);
    lemma_planned(records, state, remote, source, target is Some);
    lemma_typed_places(records);
    assert forall|k: int| 0 <= k < p.plan.deletes.len() implies owned(
        p.state,
        p.source,
        #[trigger] p.plan.deletes[k],
    ) by {
        assert(p.plan.deletes.contains(p.plan.deletes[k]));
    }
    assert forall|k: int| 0 <= k < p.plan.creates.len() implies {
        &&& 0 <= #[trigger] p.plan.creates[k] < p.records.len()
        &&& is_typed(p.records[p.plan.creates[k]])
    } by {
        assert(typed_places(records).contains(p.plan.creates[k]));
        assert(is_typed(records[p.plan.creates[k]]));
    }
}

/// Why a pass did not begin, with the file and the state as they were.
pub struct Refusal {
    pub error: SyncError,
    pub records: Vec<EventRecord>,
    pub state: SyncState,
}

/// What becomes of a pass that has begun.
pub enum Course {
    /// A dry run: what would be done, with the file and the state as they were.
    Previewed { lines: Vec<String>, records: Vec<EventRecord>, state: SyncState },
    /// The requests are to be made.
    UnderWay(Pass),
}

impl Pass {
    pub closed spec fn view(&self) -> PassView {
        PassView {
            source: self.source@,
            records: crate::record::record_views(self.records@),
            state: state_views(self.state.events@),
            remote: crate::remote::remote_views(self.remote@),
            plan: self.plan@,
            target: crate::text::opt_text(self.target),
            done: self.done as int,
            consumed: Set::new(
                |i: int| 0 <= i < self.consumed@.len() && self.consumed@[i],
            ),
        }
    }

    /// The invariant.
    pub closed spec fn wf(&self) -> bool {
        &&& self.state.events.wf()
        &&& self.remote.wf()
        &&& self.consumed@.len() == self.records@.len()
        &&& valid_pass(self@)
    }

    /// Begins a pass of the account. It is refused when it would delete most of what is known
    /// and is not forced, and when typed records are to go to this account but the calendar
    /// for them is not there; then nothing changes.
    pub fn begin(
        source: String,
        records: Vec<EventRecord>,
        state: SyncState,
        remote: Remote,
        push: &PushTarget,
        push_here: bool,
        force_deletes: bool,
    ) -> (pass: Result<Pass, Refusal>)
        requires
            state.events.wf(),
            remote.events.wf(),
        ensures
            ({
                let recs = crate::record::record_views(records@);
                let st = state_views(state.events@);
                let rem = crate::remote::remote_views(remote.events@);
                let deletes = planned(recs, st, rem, source@, push_here).deletes.len();
                let known = known_count(st, source@);
                let calendars = crate::remote::calendar_views(remote.calendars@);
                let place = crate::remote::target_place(
                    calendars,
                    crate::text::opt_text(push.calendar),
                );
                if !force_deletes && too_many_deletes(deletes as int, known as int) {
                    &&& pass matches Err(refusal)
                    &&& refusal.records == records
                    &&& refusal.state == state
                    &&& refusal.error matches SyncError::RefusedDeletes { count, known: k }
                    &&& count == deletes
                    &&& k == known
                } else if push_here && place is Err {
                    &&& pass matches Err(refusal)
                    &&& refusal.records == records
                    &&& refusal.state == state
                    &&& refusal.error == place->Err_0
                } else {
                    let target = if push_here {
                        Some(calendars[place->Ok_0].target)
                    } else {
                        None
                    };
                    &&& pass matches Ok(pass)
                    &&& pass.wf()
                    &&& pass@ == begun(source@, recs, st, rem, target)
                }
            }),
    {
        let plan = match plan_pass(
            &records,
            &state,
            &remote.events,
            source.as_str(),
            push_here,
            force_deletes,
        ) {
            Err(error) => return Err(Refusal { error, records, state }),
            Ok(plan) => plan,
        };
        let target = if push_here {
            match pick_target(&remote.calendars, push) {
                Err(error) => return Err(Refusal { error, records, state }),
                Ok(at) => Some(remote.calendars[at].target.clone()),
            }
        } else {
            None
        };
        let mut consumed: Vec<bool> = Vec::new();
        while consumed.len() < records.len()
            invariant
                consumed@.len() <= records@.len(),
                forall|i: int| 0 <= i < consumed@.len() ==> !#[trigger] consumed@[i],
            decreases records@.len() - consumed@.len(),
        {
            consumed.push(false);
        }
        let pass = Pass {
            source,
            records,
            state,
            remote: remote.events,
            plan,
            target,
            done: 0,
            consumed,
        };
        proof {
            let p = pass@;
            state.events.lemma_keys_in_order();
            assert(p.state.dom() =~= state.events@.dom());
            assert(state.events.keys().to_set() =~= state.events@.dom());
            assert(p.consumed =~= Set::empty());
            lemma_begun(p.source, p.records, p.state, p.remote, p.target);
            assert(p =~= begun(p.source, p.records, p.state, p.remote, p.target));
        }
        Ok(pass)
    }

    /// What the invariant says of the view.
    pub proof fn lemma_valid(&self)
        requires
            self.wf(),
        ensures
            valid_pass(self@),
            self@.state.dom().finite(),
            self@.remote.dom().finite(),
    {
        assert(self@.state.dom() =~= self.state.events.keys().to_set());
        assert(self@.remote.dom() =~= self.remote.keys().to_set());
    }

    /// Where the deletions, the changes and the creations end.
    fn ends(&self) -> (e: (u128, u128, u128))
        ensures
            e.0 == deletes_end(self@.plan),
            e.1 == updates_end(self@.plan),
            e.2 == creates_end(self@.plan),
            e.0 <= usize::MAX,
            e.1 - e.0 <= usize::MAX,
            e.2 - e.1 <= usize::MAX,
    {
        let deletes: u128 = self.plan.deletes.len() as u128;
        let updates: u128 = self.plan.updates.len() as u128;
        let creates: u128 = self.plan.creates.len() as u128;
        (deletes, deletes + updates, deletes + updates + creates)
    }

    /// The next request, or the address of a synced event that is not one.
    pub fn next(&self) -> (step: Result<Step, String>)
        requires
            self.wf(),
        ensures
            match step_of(self@) {
                Ok(s) => step matches Ok(step) && step@ == s,
                Err(url) => step matches Err(e) && e@ == url,
            },
    {
        let ghost p = self@;
        let (deletes_to, updates_to, creates_to) = self.ends();
        if self.done < deletes_to {
            let at: usize = self.done as usize;
            let uid = &self.plan.deletes[at];
            assert(uid@ == p.plan.deletes[at as int]);
            assert(owned(p.state, p.source, p.plan.deletes[p.done]));
            assert(self.state.events@.contains_key(uid@));
            return match self.state.events.get(uid.as_str()) {
                None => Ok(Step::Done),
                Some(s) => match parse_url(s.url.as_str()) {
                    None => Err(s.url.clone()),
                    Some(url) => Ok(
                        Step::Delete { uid: uid.clone(), url, etag: s.etag.clone() },
                    ),
                },
            };
        }
        if self.done < updates_to {
            let at: usize = (self.done - deletes_to) as usize;
            let (uid, record) = &self.plan.updates[at];
            assert(p.plan.updates[at as int] == (uid@, record@));
            assert(!gone(p.remote, p.plan.updates[at as int].0));
            return match self.remote.get(uid.as_str()) {
                None => Ok(Step::Done),
                Some(event) => Ok(
                    Step::Update {
                        uid: uid.clone(),
                        url: event.url.clone(),
                        etag: event.etag.clone(),
                        lines: copy_texts(&event.lines),
                        record: record.clone(),
                    },
                ),
            };
        }
        if self.done < creates_to {
            let at: usize = (self.done - updates_to) as usize;
            assert(p.plan.creates[at as int] == self.plan.creates@[at as int]);
            return match &self.target {
                None => Ok(Step::Done),
                Some(target) => Ok(
                    Step::Create {
                        target: target.clone(),
                        record: self.records[self.plan.creates[at]].clone(),
                    },
                ),
            };
        }
        Ok(Step::Done)
    }
}

impl Pass {
    /// The server did not do what was requested: the pass goes on to the next request, with
    /// nothing else changed. Once it has ended, a record that was not created is still in the
    /// file as it was typed. An event that was not changed or not deleted is in the file and in
    /// the state as the server has it.
    pub fn failed(&mut self)
        requires
            old(self).wf(),
            old(self)@.done < creates_end(old(self)@.plan),
        ensures
            final(self).wf(),
            final(self)@ == after_failure(old(self)@),
    {
        let (_, _, creates_to) = self.ends();
        assert(self.done < creates_to);
        self.done = self.done + 1;
        assert(self@ =~= after_failure(old(self)@));
    }

    /// The server has deleted the event.
    pub fn deleted(&mut self)
        requires
            old(self).wf(),
            old(self)@.done < deletes_end(old(self)@.plan),
        ensures
            final(self).wf(),
            final(self)@ == after_delete(old(self)@),
    {
        let ghost p = self@;
        let (deletes_to, _, _) = self.ends();
        assert(self.done < deletes_to);
        let uid = self.plan.deletes[self.done as usize].clone();
        assert(uid@ == p.plan.deletes[p.done]);
        self.state.events.remove(uid.as_str());
        self.remote.remove(uid.as_str());
        self.done = self.done + 1;
        proof {
            assert(self@.state =~= p.state.remove(uid@));
            assert(self@.remote =~= p.remote.remove(uid@));
            assert(self@ =~= after_delete(p));
            assert(p.plan.deletes.contains(uid@));
        }
    }

    /// The server has changed the event and given it a new tag.
    pub fn updated(&mut self, etag: String)
        requires
            old(self).wf(),
            deletes_end(old(self)@.plan) <= old(self)@.done < updates_end(old(self)@.plan),
        ensures
            final(self).wf(),
            final(self)@ == after_update(old(self)@, etag@),
    {
        let ghost p = self@;
        let (deletes_to, _, _) = self.ends();
        let at: usize = (self.done - deletes_to) as usize;
        let uid = self.plan.updates[at].0.clone();
        let local = self.plan.updates[at].1.clone();
        assert(p.plan.updates[at as int] == (uid@, local@));
        assert(!gone(p.remote, p.plan.updates[at as int].0));
        if let Some(event) = self.remote.remove(uid.as_str()) {
            let ghost was = event@;
            assert(was == p.remote[uid@]);
            let mut instances: Vec<EventRecord> = Vec::new();
            instances.push(with_identity(&local, uid.as_str(), self.source.as_str()));
            let entry = synced(self.source.as_str(), event.url.as_str(), etag.as_str(), &local);
            let event = RemoteEvent {
                url: event.url,
                etag,
                recurring: event.recurring,
                instances,
                lines: event.lines,
            };
            proof {
                assert(crate::record::record_views(instances@) =~= seq![
                    identified(local@, uid@, p.source),
                ]);
                assert(event@ == crate::remote::RemoteEventView {
                    etag: etag@,
                    instances: seq![identified(local@, uid@, p.source)],
                    ..was
                });
            }
            self.remote.insert(uid.clone(), event);
            self.state.events.insert(uid, entry);
            self.done = self.done + 1;
            proof {
                let q = after_update(p, etag@);
                assert(self@.state =~= q.state);
                assert(self@.remote =~= q.remote);
                assert(self@ =~= q);
            }
        }
    }

    /// The server has created the event and given it an identity, an address and a tag.
    pub fn created(&mut self, uid: String, url: String, etag: String)
        requires
            old(self).wf(),
            updates_end(old(self)@.plan) <= old(self)@.done < creates_end(old(self)@.plan),
        ensures
            final(self).wf(),
            final(self)@ == after_create(old(self)@, uid@, url@, etag@),
    {
        let ghost p = self@;
        let (_, updates_to, _) = self.ends();
        let k: usize = (self.done - updates_to) as usize;
        let at: usize = self.plan.creates[k];
        assert(p.plan.creates[k as int] == at);
        let local = &self.records[at];
        let entry = synced(self.source.as_str(), url.as_str(), etag.as_str(), local);
        let mut instances: Vec<EventRecord> = Vec::new();
        instances.push(with_identity(local, uid.as_str(), self.source.as_str()));
        let event = RemoteEvent { url, etag, recurring: false, instances, lines: Vec::new() };
        proof {
            assert(crate::record::record_views(instances@) =~= seq![
                identified(local@, uid@, p.source),
            ]);
            assert(event@.lines =~= Seq::empty());
        }
        self.state.events.insert(uid.clone(), entry);
        self.remote.insert(uid, event);
        self.consumed.set(at, true);
        self.done = self.done + 1;
        proof {
            let q = after_create(p, uid@, url@, etag@);
            assert(self@.state =~= q.state);
            assert(self@.remote =~= q.remote);
            assert(self@.consumed =~= q.consumed);
            assert(self@ =~= q);
        }
    }

    /// Sets out on a pass that has requested nothing yet. A dry run ends here: it says what the
    /// pass would do and gives the file and the state back as they were. Otherwise the pass goes
    /// on.
    pub fn set_out(self, dry_run: bool) -> (c: Course)
        requires
            self.wf(),
            self@.done == 0,
            dry_run ==> all_instances(
                crate::uid_map::in_order(self@.remote.dom()),
                self@.remote,
            ).len() <= u64::MAX,
        ensures
            match c {
                Course::Previewed { lines, records, state } => {
                    &&& dry_run
                    &&& crate::text::texts(lines@) == preview_lines(self@)
                    &&& crate::record::record_views(records@) == self@.records
                    &&& state_views(state.events@) == self@.state
                    &&& state.events.wf()
                },
                Course::UnderWay(pass) => !dry_run && pass == self,
            },
    {
        if !dry_run {
            return Course::UnderWay(self);
        }
        let lines = self.preview();
        let (records, state) = self.abandon();
        Course::Previewed { lines, records, state }
    }

    /// Gives the file and the state back as they are: the file as it was, the state with what
    /// came of the requests so far.
    pub fn abandon(self) -> (r: (Vec<EventRecord>, SyncState))
        requires
            self.wf(),
        ensures
            crate::record::record_views(r.0@) == self@.records,
            state_views(r.1.events@) == self@.state,
            r.1.events.wf(),
    {
        (self.records, self.state)
    }

    /// Ends a pass once nothing is left to request: the file and the state as they now are.
    pub fn finish(self) -> (r: (Vec<EventRecord>, SyncState))
        requires
            self.wf(),
            self@.done == creates_end(self@.plan),
        ensures
            crate::record::record_views(r.0@) == final_records(self@),
            state_views(r.1.events@) == final_state(self@),
            r.1.events.wf(),
    {
        let ghost p = self@;
        let mut state = self.state;
        forget_all(&mut state, &self.plan.forget);
        hold_all(&mut state, self.source.as_str(), &self.remote);
        let mut records = keep_records(&self.records, self.source.as_str(), &self.consumed);
        append_instances(&mut records, &self.remote);
        proof {
            assert(p.remote.dom() =~= self.remote@.dom());
            assert(state_views(state.events@) =~= final_state(p));
        }
        (records, state)
    }
}

// ── The plan in words ─────────────────────────────────────────────────────

/// What a record says, in one line.
pub open spec fn record_line(r: crate::record::RecordView) -> Seq<char> {
    let time = match r.time {
        Some(t) => t,
        None => "-----"@,
    };
    r.date + seq![' '] + time + seq![' '] + r.title
}

/// An identity in brackets.
pub open spec fn uid_note(uid: Seq<char>) -> Seq<char> {
    " ("@ + uid + ")"@
}

/// The lines that say what a pass is about to do: a line for each creation, each change and
/// each deletion, and how many records mirror the account.
pub open spec fn preview_lines(p: PassView) -> Seq<Seq<char>> {
    let mirrored = all_instances(crate::uid_map::in_order(p.remote.dom()), p.remote).len();
    new_lines(p, p.plan.creates.len() as int) + change_lines(p, p.plan.updates.len() as int)
        + delete_lines(p, p.plan.deletes.len() as int) + seq![
        p.source + ": "@ + crate::text::decimal(mirrored) + " record(s) mirrored"@,
    ]
}

pub open spec fn new_lines(p: PassView, n: int) -> Seq<Seq<char>> {
    Seq::new(n as nat, |k: int| "push new:    "@ + record_line(p.records[p.plan.creates[k]]))
}

pub open spec fn change_lines(p: PassView, n: int) -> Seq<Seq<char>> {
    Seq::new(
        n as nat,
        |k: int|
            "push change: "@ + record_line(p.plan.updates[k].1) + uid_note(p.plan.updates[k].0),
    )
}

pub open spec fn delete_lines(p: PassView, n: int) -> Seq<Seq<char>> {
    Seq::new(
        n as nat,
        |k: int|
            "push delete: "@ + p.state[p.plan.deletes[k]].title + uid_note(p.plan.deletes[k]),
    )
}

fn write_record_line(r: &EventRecord) -> (s: String)
    ensures
        s@ == record_line(r@),
{
    let mut s = r.date.clone();
    s.push(' ');
    match &r.time {
        Some(t) => s.append(t.as_str()),
        None => s.append("-----"),
    }
    s.push(' ');
    s.append(r.title.as_str());
    assert(s@ =~= record_line(r@));
    s
}

fn append_uid_note(s: &mut String, uid: &str)
    ensures
        final(s)@ == old(s)@ + uid_note(uid@),
{
    s.append(" (");
    s.append(uid);
    s.append(")");
    assert(s@ =~= old(s)@ + uid_note(uid@));
}

/// Adds a line.
fn add_line(lines: &mut Vec<String>, line: String)
    ensures
        crate::text::texts(final(lines)@) == crate::text::texts(old(lines)@).push(line@),
{
    lines.push(line);
    assert(crate::text::texts(lines@) =~= crate::text::texts(old(lines)@).push(line@));
}

impl Pass {
    /// How many records mirror the account.
    fn count_instances(&self) -> (n: u64)
        requires
            self.wf(),
            all_instances(
                crate::uid_map::in_order(self@.remote.dom()),
                self@.remote,
            ).len() <= u64::MAX,
        ensures
            n == all_instances(
                crate::uid_map::in_order(self@.remote.dom()),
                self@.remote,
            ).len(),
    {
        let ghost rem = self@.remote;
        let ghost uids = self.remote.keys();
        let mut n: u64 = 0;
        let mut i: usize = 0;
        proof {
            self.remote.lemma_entries();
            self.remote.lemma_keys_in_order();
            assert(rem.dom() =~= self.remote@.dom());
        }
        while i < self.remote.len()
            invariant
                i <= uids.len(),
                uids == self.remote.keys(),
                self.remote.wf(),
                rem == crate::remote::remote_views(self.remote@),
                n == all_instances(uids.take(i as int), rem).len(),
                all_instances(uids, rem).len() <= u64::MAX,
            decreases uids.len() - i,
        {
            proof {
                self.remote.lemma_entries();
                lemma_instances_grow(uids, rem, i + 1);
                assert(uids.take(i + 1).drop_last() =~= uids.take(i as int));
            }
            let event = self.remote.value_at(i);
            assert(self.remote@.contains_key(self.remote.keys()[i as int]));
            assert(rem[uids[i as int]] == event@);
            n = n + event.instances.len() as u64;
            i = i + 1;
        }
        assert(uids.take(i as int) =~= uids);
        n
    }

    /// The lines that say what a pass is about to do.
    pub fn preview(&self) -> (lines: Vec<String>)
        requires
            self.wf(),
            self@.done == 0,
            all_instances(
                crate::uid_map::in_order(self@.remote.dom()),
                self@.remote,
            ).len() <= u64::MAX,
        ensures
            crate::text::texts(lines@) == preview_lines(self@),
    {
        let ghost p = self@;
        let mut lines: Vec<String> = Vec::new();
        let mut k: usize = 0;
        assert(crate::text::texts(lines@) =~= new_lines(p, 0));
        while k < self.plan.creates.len()
            invariant
                self.wf(),
                p == self@,
                k <= self.plan.creates@.len(),
                crate::text::texts(lines@) == new_lines(p, k as int),
            decreases self.plan.creates@.len() - k,
        {
            assert(p.plan.creates[k as int] == self.plan.creates@[k as int]);
            let mut line = "push new:    ".to_owned();
            line.append(write_record_line(&self.records[self.plan.creates[k]]).as_str());
            add_line(&mut lines, line);
            assert(new_lines(p, k + 1) =~= new_lines(p, k as int).push(line@));
            k = k + 1;
        }
        let ghost before = crate::text::texts(lines@);
        k = 0;
        assert(before =~= before + change_lines(p, 0));
        while k < self.plan.updates.len()
            invariant
                self.wf(),
                p == self@,
                k <= self.plan.updates@.len(),
                crate::text::texts(lines@) == before + change_lines(p, k as int),
            decreases self.plan.updates@.len() - k,
        {
            let (uid, record) = &self.plan.updates[k];
            assert(p.plan.updates[k as int] == (uid@, record@));
            let mut line = "push change: ".to_owned();
            line.append(write_record_line(record).as_str());
            append_uid_note(&mut line, uid.as_str());
            add_line(&mut lines, line);
            assert(before + change_lines(p, k + 1) =~= (before + change_lines(p, k as int)).push(
                line@,
            ));
            k = k + 1;
        }
        let ghost before = crate::text::texts(lines@);
        k = 0;
        assert(before =~= before + delete_lines(p, 0));
        while k < self.plan.deletes.len()
            invariant
                self.wf(),
                p == self@,
                p.done == 0,
                k <= self.plan.deletes@.len(),
                crate::text::texts(lines@) == before + delete_lines(p, k as int),
            decreases self.plan.deletes@.len() - k,
        {
            let uid = &self.plan.deletes[k];
            assert(uid@ == p.plan.deletes[k as int]);
            assert(owned(p.state, p.source, p.plan.deletes[k as int]));
            if let Some(s) = self.state.events.get(uid.as_str()) {
                let mut line = "push delete: ".to_owned();
                line.append(s.title.as_str());
                append_uid_note(&mut line, uid.as_str());
                add_line(&mut lines, line);
                assert(before + delete_lines(p, k + 1) =~= (before + delete_lines(
                    p,
                    k as int,
                )).push(line@));
            }
            k = k + 1;
        }
        let ghost before = crate::text::texts(lines@);
        let mut line = self.source.clone();
        line.append(": ");
        line.append(to_decimal(self.count_instances()).as_str());
        line.append(" record(s) mirrored");
        add_line(&mut lines, line);
        assert(crate::text::texts(lines@) =~= preview_lines(p));
        lines
    }
}

/// The instances of some of the events are no more than those of all.
proof fn lemma_instances_grow(
    uids: Seq<Seq<char>>,
    remote: Map<Seq<char>, crate::remote::RemoteEventView>,
    k: int,
)
    requires
        0 <= k <= uids.len(),
    ensures
        all_instances(uids.take(k), remote).len() <= all_instances(uids, remote).len(),
    decreases uids.len() - k,
{
    if k < uids.len() {
        lemma_instances_grow(uids, remote, k + 1);
        assert(uids.take(k + 1).drop_last() =~= uids.take(k));
    } else {
        assert(uids.take(k) =~= uids);
    }
}

/// A record with the identity of its event.
fn with_identity(r: &EventRecord, uid: &str, source: &str) -> (c: EventRecord)
    ensures
        c@ == identified(r@, uid@, source@),
{
    EventRecord {
        date: r.date.clone(),
        time: copy_opt(&r.time),
        title: r.title.clone(),
        uid: Some(uid.to_owned()),
        source: Some(source.to_owned()),
        recurring: false,
    }
}

/// Takes events out of the state.
fn forget_all(state: &mut SyncState, uids: &Vec<String>)
    requires
        old(state).events.wf(),
    ensures
        final(state).events.wf(),
        forall|u: Seq<char>| #[trigger]
            final(state).events@.contains_key(u) <==> old(state).events@.contains_key(u)
                && !crate::text::texts(uids@).contains(u),
        forall|u: Seq<char>| #[trigger]
            final(state).events@.contains_key(u) ==> final(state).events@[u] == old(
                state,
            ).events@[u],
{
    let ghost before = state.events@;
    let ghost all = crate::text::texts(uids@);
    let mut i: usize = 0;
    while i < uids.len()
        invariant
            i <= uids@.len(),
            all == crate::text::texts(uids@),
            state.events.wf(),
            forall|u: Seq<char>| #[trigger]
                state.events@.contains_key(u) <==> before.contains_key(u) && !all.take(
                    i as int,
                ).contains(u),
            forall|u: Seq<char>| #[trigger]
                state.events@.contains_key(u) ==> state.events@[u] == before[u],
        decreases uids@.len() - i,
    {
        state.events.remove(uids[i].as_str());
        proof {
            assert(all.take(i + 1) =~= all.take(i as int).push(all[i as int]));
            assert forall|u: Seq<char>| #[trigger]
                all.take(i + 1).contains(u) <==> all.take(i as int).contains(u) || u == all[i as int] by {
                lemma_push_contains(all.take(i as int), all[i as int], u);
            }
        }
        i = i + 1;
    }
    assert(all.take(i as int) =~= all);
}

/// What a list holds with one more value.
pub proof fn lemma_push_contains<T>(s: Seq<T>, x: T, y: T)
    ensures
        s.push(x).contains(y) <==> s.contains(y) || y == x,
{
    if s.contains(y) {
        let i = choose|i: int| 0 <= i < s.len() && s[i] == y;
        assert(s.push(x)[i] == y);
    }
    if y == x {
        assert(s.push(x)[s.len() as int] == y);
    }
}

/// The state with the events of a list that the server holds.
spec fn with_held(
    state: Map<Seq<char>, crate::record::SyncedView>,
    source: Seq<char>,
    remote: Map<Seq<char>, crate::remote::RemoteEventView>,
    uids: Seq<Seq<char>>,
) -> Map<Seq<char>, crate::record::SyncedView> {
    Map::new(
        |u: Seq<char>| (uids.contains(u) && is_held(remote, u)) || state.contains_key(u),
        |u: Seq<char>|
            if uids.contains(u) && is_held(remote, u) {
                crate::record::synced_view(
                    source,
                    remote[u].url,
                    remote[u].etag,
                    remote[u].instances[0],
                )
            } else {
                state[u]
            },
    )
}

/// Puts every event that the server holds and that does not repeat into the state.
fn hold_all(state: &mut SyncState, source: &str, remote: &UidMap<RemoteEvent>)
    requires
        old(state).events.wf(),
        remote.wf(),
    ensures
        final(state).events.wf(),
        state_views(final(state).events@) == with_held(
            state_views(old(state).events@),
            source@,
            crate::remote::remote_views(remote@),
            remote.keys(),
        ),
{
    let ghost before = state_views(state.events@);
    let ghost rem = crate::remote::remote_views(remote@);
    let ghost uids = remote.keys();
    let mut i: usize = 0;
    proof {
        remote.lemma_entries();
        assert(before =~= with_held(before, source@, rem, uids.take(0)));
    }
    while i < remote.len()
        invariant
            i <= uids.len(),
            uids == remote.keys(),
            remote.wf(),
            state.events.wf(),
            rem == crate::remote::remote_views(remote@),
            state_views(state.events@) == with_held(before, source@, rem, uids.take(i as int)),
        decreases uids.len() - i,
    {
        proof {
            remote.lemma_entries();
        }
        let ghost uid = uids[i as int];
        let ghost now = state_views(state.events@);
        let event = remote.value_at(i);
        assert(remote@.contains_key(remote.keys()[i as int]));
        assert(rem[uid] == event@);
        if !event.recurring && event.instances.len() > 0 {
            let entry = synced(
                source,
                event.url.as_str(),
                event.etag.as_str(),
                &event.instances[0],
            );
            assert(entry@ == crate::record::synced_view(
                source@,
                rem[uid].url,
                rem[uid].etag,
                rem[uid].instances[0],
            ));
            state.events.insert(remote.key_at(i).clone(), entry);
            assert(state_views(state.events@) =~= now.insert(uid, entry@));
        }
        proof {
            let next = with_held(before, source@, rem, uids.take(i + 1));
            assert(uids.take(i + 1) =~= uids.take(i as int).push(uid));
            assert forall|u: Seq<char>| #[trigger]
                uids.take(i + 1).contains(u) <==> uids.take(i as int).contains(u) || u == uid by {
                lemma_push_contains(uids.take(i as int), uid, u);
            }
            assert(state_views(state.events@) =~= next);
        }
        i = i + 1;
    }
    assert(uids.take(i as int) =~= uids);
}

/// The records that a pass leaves alone.
fn keep_records(records: &Vec<EventRecord>, source: &str, consumed: &Vec<bool>) -> (kept: Vec<
    EventRecord,
>)
    requires
        consumed@.len() == records@.len(),
    ensures
        crate::record::record_views(kept@) == kept_records(
            crate::record::record_views(records@),
            source@,
            Set::new(|i: int| 0 <= i < consumed@.len() && consumed@[i]),
        ),
{
    let ghost all = crate::record::record_views(records@);
    let ghost gone = Set::new(|i: int| 0 <= i < consumed@.len() && consumed@[i]);
    let mut kept: Vec<EventRecord> = Vec::new();
    let mut i: usize = 0;
    assert(crate::record::record_views(kept@) =~= Seq::empty());
    while i < records.len()
        invariant
            i <= records@.len(),
            consumed@.len() == records@.len(),
            all == crate::record::record_views(records@),
            gone == Set::new(|i: int| 0 <= i < consumed@.len() && consumed@[i]),
            crate::record::record_views(kept@) == kept_records(all.take(i as int), source@, gone),
        decreases records@.len() - i,
    {
        assert(all.take(i + 1).drop_last() =~= all.take(i as int));
        assert(all.take(i + 1).last() == records@[i as int]@);
        let ghost before = crate::record::record_views(kept@);
        if !opt_is(&records[i].source, source) && !consumed[i] {
            kept.push(records[i].clone());
            assert(crate::record::record_views(kept@) =~= before.push(records@[i as int]@));
        }
        i = i + 1;
    }
    assert(all.take(i as int) =~= all);
    kept
}

/// Appends the instances of every event.
fn append_instances(records: &mut Vec<EventRecord>, remote: &UidMap<RemoteEvent>)
    requires
        remote.wf(),
    ensures
        crate::record::record_views(final(records)@) == crate::record::record_views(old(records)@)
            + all_instances(
            crate::uid_map::in_order(remote@.dom()),
            crate::remote::remote_views(remote@),
        ),
{
    let ghost before = crate::record::record_views(records@);
    let ghost rem = crate::remote::remote_views(remote@);
    let ghost uids = remote.keys();
    let mut i: usize = 0;
    proof {
        remote.lemma_entries();
        remote.lemma_keys_in_order();
        assert(before =~= before + all_instances(uids.take(0), rem));
    }
    while i < remote.len()
        invariant
            i <= uids.len(),
            uids == remote.keys(),
            remote.wf(),
            rem == crate::remote::remote_views(remote@),
            crate::record::record_views(records@) == before + all_instances(
                uids.take(i as int),
                rem,
            ),
        decreases uids.len() - i,
    {
        proof {
            remote.lemma_entries();
        }
        let event = remote.value_at(i);
        let ghost uid = uids[i as int];
        assert(remote@.contains_key(remote.keys()[i as int]));
        assert(rem[uid] == event@);
        let ghost so_far = crate::record::record_views(records@);
        let mut k: usize = 0;
        assert(so_far =~= so_far + event@.instances.take(0));
        while k < event.instances.len()
            invariant
                k <= event.instances@.len(),
                crate::record::record_views(records@) == so_far + event@.instances.take(k as int),
            decreases event.instances@.len() - k,
        {
            let ghost was = crate::record::record_views(records@);
            records.push(event.instances[k].clone());
            proof {
                assert(crate::record::record_views(records@) =~= was.push(
                    event@.instances[k as int],
                ));
                assert(event@.instances.take(k + 1) =~= event@.instances.take(k as int).push(
                    event@.instances[k as int],
                ));
                assert(so_far + event@.instances.take(k + 1) =~= (so_far + event@.instances.take(
                    k as int,
                )).push(event@.instances[k as int]));
            }
            k = k + 1;
        }
        proof {
            assert(event@.instances.take(k as int) =~= event@.instances);
            assert(uids.take(i + 1).drop_last() =~= uids.take(i as int));
            assert(before + all_instances(uids.take(i + 1), rem) =~= (before + all_instances(
                uids.take(i as int),
                rem,
            )) + event@.instances);
        }
        i = i + 1;
    }
    assert(uids.take(i as int) =~= uids);
}

} // verus!
