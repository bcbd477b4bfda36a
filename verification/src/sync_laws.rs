//! What a sync pass keeps, and what follows from it for the file, the state and the server.
use vstd::prelude::*;

verus! {

// ── Which requests are made ───────────────────────────────────────────────

/// A deletion is requested exactly for an event that the state knows, the server still has and
/// the file no longer has. A change is requested exactly for an event that the state knows and
/// the server still has, as no more than one instance, that is one record of the file, and whose
/// date, time or title there is not that of the state; it is changed to what the file says.
pub proof fn law_requests(
    records: Seq<crate::record::RecordView>,
    state: Map<Seq<char>, crate::record::SyncedView>,
    remote: Map<Seq<char>, crate::remote::RemoteEventView>,
    source: Seq<char>,
    push_here: bool,
)
    requires
        state.dom().finite(),
    ensures
        ({
            let plan = crate::sync::planned(records, state, remote, source, push_here);
            &&& forall|u: Seq<char>| #[trigger]
                plan.deletes.contains(u) <==> crate::sync::to_delete(
                    records,
                    state,
                    remote,
                    source,
                    u,
                )
            &&& forall|u: Seq<char>, r: crate::record::RecordView| #[trigger]
                plan.updates.contains((u, r)) <==> crate::sync::to_update(
                    records,
                    state,
                    remote,
                    source,
                    u,
                ) && crate::sync::last_local(records, source, u) == Some(r)
            &&& forall|i: int| #[trigger]
                plan.creates.contains(i) <==> push_here && 0 <= i < records.len()
                    && crate::sync::is_typed(records[i])
        }),
{
    let plan = crate::sync::planned(records, state, remote, source, push_here);
    crate::uid_map::lemma_listed(state.dom());
    crate::sync::lemma_planned(records, state, remote, source, push_here);
    crate::sync::lemma_typed_places(records);
    assert forall|u: Seq<char>, r: crate::record::RecordView| #[trigger]
        plan.updates.contains((u, r)) <==> crate::sync::to_update(
            records,
            state,
            remote,
            source,
            u,
        ) && crate::sync::last_local(records, source, u) == Some(r) by {
        if plan.updates.contains((u, r)) {
            let k = choose|k: int| 0 <= k < plan.updates.len() && plan.updates[k] == (u, r);
            assert(plan.updates[k].0 == u);
        }
        if crate::sync::to_update(records, state, remote, source, u) {
            let k = choose|k: int|
                0 <= k < plan.updates.len() && (#[trigger] plan.updates[k]).0 == u;
            assert(plan.updates.contains(plan.updates[k]));
        }
    }
}

/// An event that repeats is never deleted or changed on the server.
pub proof fn law_recurring_events_are_never_written(
    records: Seq<crate::record::RecordView>,
    state: Map<Seq<char>, crate::record::SyncedView>,
    remote: Map<Seq<char>, crate::remote::RemoteEventView>,
    source: Seq<char>,
    push_here: bool,
    uid: Seq<char>,
)
    requires
        remote.contains_key(uid),
        remote[uid].recurring,
    ensures
        ({
            let plan = crate::sync::planned(records, state, remote, source, push_here);
            &&& !plan.deletes.contains(uid)
            &&& forall|k: int|
                0 <= k < plan.updates.len() ==> (#[trigger] plan.updates[k]).0 != uid
        }),
{
    let uids = crate::uid_map::in_order(state.dom());
    let upd = |u: Seq<char>| crate::sync::to_update(records, state, remote, source, u);
    crate::sync::lemma_filtered(
        uids,
        |u: Seq<char>| crate::sync::to_delete(records, state, remote, source, u),
    );
    crate::sync::lemma_filtered(uids, upd);
    let plan = crate::sync::planned(records, state, remote, source, push_here);
    assert forall|k: int| 0 <= k < plan.updates.len() implies (#[trigger] plan.updates[k]).0
        != uid by {
        assert(uids.filter(upd).contains(uids.filter(upd)[k]));
    }
}

/// An event that is several records of the file, such as a whole-day event of several days, is
/// never deleted or changed on the server.
pub proof fn law_several_records_are_read_only(
    records: Seq<crate::record::RecordView>,
    state: Map<Seq<char>, crate::record::SyncedView>,
    remote: Map<Seq<char>, crate::remote::RemoteEventView>,
    source: Seq<char>,
    push_here: bool,
    uid: Seq<char>,
    i: int,
    j: int,
)
    requires
        0 <= i < j < records.len(),
        crate::sync::mirrors_uid(records[i], source, uid),
        crate::sync::mirrors_uid(records[j], source, uid),
    ensures
        ({
            let plan = crate::sync::planned(records, state, remote, source, push_here);
            &&& !plan.deletes.contains(uid)
            &&& forall|k: int|
                0 <= k < plan.updates.len() ==> (#[trigger] plan.updates[k]).0 != uid
        }),
{
    let uids = crate::uid_map::in_order(state.dom());
    let upd = |u: Seq<char>| crate::sync::to_update(records, state, remote, source, u);
    crate::sync::lemma_filtered(
        uids,
        |u: Seq<char>| crate::sync::to_delete(records, state, remote, source, u),
    );
    crate::sync::lemma_filtered(uids, upd);
    lemma_last_local(records, source, uid);
    assert(records.contains(records[i]));
    assert(!crate::sync::is_one_record(records, source, uid));
    let plan = crate::sync::planned(records, state, remote, source, push_here);
    assert forall|k: int| 0 <= k < plan.updates.len() implies (#[trigger] plan.updates[k]).0
        != uid by {
        assert(uids.filter(upd).contains(uids.filter(upd)[k]));
    }
}

/// An event that the server has as several instances, such as a whole-day event of several days,
/// is never changed on the server, whatever the file holds of it.
pub proof fn law_several_instances_are_never_changed(
    records: Seq<crate::record::RecordView>,
    state: Map<Seq<char>, crate::record::SyncedView>,
    remote: Map<Seq<char>, crate::remote::RemoteEventView>,
    source: Seq<char>,
    push_here: bool,
    uid: Seq<char>,
)
    requires
        remote.contains_key(uid),
        remote[uid].instances.len() > 1,
    ensures
        ({
            let plan = crate::sync::planned(records, state, remote, source, push_here);
            forall|k: int| 0 <= k < plan.updates.len() ==> (#[trigger] plan.updates[k]).0 != uid
        }),
{
    let uids = crate::uid_map::in_order(state.dom());
    let upd = |u: Seq<char>| crate::sync::to_update(records, state, remote, source, u);
    crate::sync::lemma_filtered(uids, upd);
    let plan = crate::sync::planned(records, state, remote, source, push_here);
    assert forall|k: int| 0 <= k < plan.updates.len() implies (#[trigger] plan.updates[k]).0
        != uid by {
        assert(uids.filter(upd).contains(uids.filter(upd)[k]));
    }
}

/// Where the state knows nothing of the account, nothing is deleted or changed on the server and
/// nothing is forgotten, whatever the file holds.
pub proof fn law_no_state_no_deletion(
    records: Seq<crate::record::RecordView>,
    state: Map<Seq<char>, crate::record::SyncedView>,
    remote: Map<Seq<char>, crate::remote::RemoteEventView>,
    source: Seq<char>,
    push_here: bool,
)
    requires
        forall|u: Seq<char>| !#[trigger] crate::sync::owned(state, source, u),
    ensures
        ({
            let plan = crate::sync::planned(records, state, remote, source, push_here);
            &&& plan.deletes.len() == 0
            &&& plan.updates.len() == 0
            &&& plan.forget.len() == 0
        }),
{
    let uids = crate::uid_map::in_order(state.dom());
    uids.lemma_all_neg_filter_empty(
        |u: Seq<char>| crate::sync::to_delete(records, state, remote, source, u),
    );
    uids.lemma_all_neg_filter_empty(
        |u: Seq<char>| crate::sync::to_update(records, state, remote, source, u),
    );
    uids.lemma_all_neg_filter_empty(
        |u: Seq<char>| crate::sync::to_forget(state, remote, source, u),
    );
}

// ── What is left alone ────────────────────────────────────────────────────

/// Whether every instance that an account mirrors is marked as that account's.
pub open spec fn is_marked(
    remote: Map<Seq<char>, crate::remote::RemoteEventView>,
    source: Seq<char>,
) -> bool {
    forall|u: Seq<char>, k: int|
        remote.contains_key(u) && 0 <= k < remote[u].instances.len() ==> (
        #[trigger] remote[u].instances[k]).source == Some(source)
}

/// Whether a record mirrors another account.
pub open spec fn is_foreign(r: crate::record::RecordView, source: Seq<char>) -> bool {
    r.source is Some && r.source != Some(source)
}

/// A pass keeps the records of all other accounts, as they are and in their order.
pub proof fn law_other_accounts_keep_their_records(p: crate::sync::PassView)
    requires
        crate::sync::valid_pass(p),
        p.remote.dom().finite(),
        is_marked(p.remote, p.source),
    ensures
        ({
            let foreign = |r: crate::record::RecordView| is_foreign(r, p.source);
            crate::sync::final_records(p).filter(foreign) == p.records.filter(foreign)
        }),
{
    let foreign = |r: crate::record::RecordView| is_foreign(r, p.source);
    let uids = crate::uid_map::in_order(p.remote.dom());
    let kept = crate::sync::kept_records(p.records, p.source, p.consumed);
    let mirrored = crate::sync::all_instances(uids, p.remote);
    crate::uid_map::lemma_listed(p.remote.dom());
    lemma_kept_foreign(p.records, p.source, p.consumed, p.records.len() as int);
    assert(p.records.take(p.records.len() as int) =~= p.records);
    assert forall|i: int| 0 <= i < mirrored.len() implies !foreign(#[trigger] mirrored[i]) by {
        let u = lemma_instance_of(uids, p.remote, i);
        assert(uids.to_set().contains(u));
        let k = choose|k: int|
            0 <= k < p.remote[u].instances.len() && p.remote[u].instances[k] == mirrored[i];
        assert(p.remote[u].instances[k].source == Some(p.source));
    }
    mirrored.lemma_all_neg_filter_empty(foreign);
    Seq::filter_distributes_over_add(kept, mirrored, foreign);
    assert(kept.filter(foreign) + mirrored.filter(foreign) =~= kept.filter(foreign));
}

/// Of the records a pass leaves alone, those of other accounts are all of them.
proof fn lemma_kept_foreign(
    records: Seq<crate::record::RecordView>,
    source: Seq<char>,
    consumed: Set<int>,
    n: int,
)
    requires
        0 <= n <= records.len(),
        forall|i: int| #[trigger]
            consumed.contains(i) ==> 0 <= i < records.len() && crate::sync::is_typed(records[i]),
    ensures
        ({
            let foreign = |r: crate::record::RecordView| is_foreign(r, source);
            crate::sync::kept_records(records.take(n), source, consumed).filter(foreign)
                == records.take(n).filter(foreign)
        }),
    decreases n,
{
    reveal(Seq::filter);
    let foreign = |r: crate::record::RecordView| is_foreign(r, source);
    if n > 0 {
        let rest = records.take(n - 1);
        lemma_kept_foreign(records, source, consumed, n - 1);
        assert(records.take(n).drop_last() =~= rest);
        let before = crate::sync::kept_records(rest, source, consumed);
        let last = records[n - 1];
        assert(before.push(last).drop_last() =~= before);
    }
}

/// Each record that mirrors an account is an instance of one of its events.
proof fn lemma_instance_of(
    uids: Seq<Seq<char>>,
    remote: Map<Seq<char>, crate::remote::RemoteEventView>,
    i: int,
) -> (u: Seq<char>)
    requires
        0 <= i < crate::sync::all_instances(uids, remote).len(),
    ensures
        uids.contains(u),
        remote[u].instances.contains(crate::sync::all_instances(uids, remote)[i]),
    decreases uids.len(),
{
    let before = crate::sync::all_instances(uids.drop_last(), remote);
    if i < before.len() {
        let u = lemma_instance_of(uids.drop_last(), remote, i);
        let k = choose|k: int| 0 <= k < uids.drop_last().len() && uids.drop_last()[k] == u;
        assert(uids[k] == u);
        u
    } else {
        let last = remote[uids.last()].instances;
        assert(last[i - before.len()] == crate::sync::all_instances(uids, remote)[i]);
        assert(uids[uids.len() - 1] == uids.last());
        uids.last()
    }
}

/// Every instance of an event is among the records that mirror the account.
proof fn lemma_instance_among(
    uids: Seq<Seq<char>>,
    remote: Map<Seq<char>, crate::remote::RemoteEventView>,
    u: Seq<char>,
    k: int,
)
    requires
        uids.contains(u),
        0 <= k < remote[u].instances.len(),
    ensures
        crate::sync::all_instances(uids, remote).contains(remote[u].instances[k]),
    decreases uids.len(),
{
    let all = crate::sync::all_instances(uids, remote);
    let before = crate::sync::all_instances(uids.drop_last(), remote);
    let r = remote[u].instances[k];
    if uids.last() == u {
        assert(all[before.len() + k] == r);
    } else {
        let i = choose|i: int| 0 <= i < uids.len() && uids[i] == u;
        assert(uids.drop_last()[i] == u);
        lemma_instance_among(uids.drop_last(), remote, u, k);
        let j = choose|j: int| 0 <= j < before.len() && before[j] == r;
        assert(all[j] == r);
    }
}

/// What a pass leaves alone is what it does not mirror and has not created.
proof fn lemma_kept(
    records: Seq<crate::record::RecordView>,
    source: Seq<char>,
    consumed: Set<int>,
    n: int,
)
    requires
        0 <= n <= records.len(),
    ensures
        ({
            let kept = crate::sync::kept_records(records.take(n), source, consumed);
            &&& forall|i: int|
                0 <= i < n && (#[trigger] records[i]).source != Some(source) && !consumed.contains(
                    i,
                ) ==> kept.contains(records[i])
            &&& forall|r: crate::record::RecordView| #[trigger]
                kept.contains(r) ==> exists|i: int|
                    0 <= i < n && #[trigger] records[i] == r && r.source != Some(source)
                        && !consumed.contains(i)
        }),
    decreases n,
{
    let kept = crate::sync::kept_records(records.take(n), source, consumed);
    if n > 0 {
        let rest = records.take(n - 1);
        lemma_kept(records, source, consumed, n - 1);
        assert(records.take(n).drop_last() =~= rest);
        let before = crate::sync::kept_records(rest, source, consumed);
        assert forall|i: int|
            0 <= i < n && (#[trigger] records[i]).source != Some(source) && !consumed.contains(
                i,
            ) implies kept.contains(records[i]) by {
            if i < n - 1 {
                assert(before.contains(records[i]));
                let k = choose|k: int| 0 <= k < before.len() && before[k] == records[i];
                assert(kept[k] == records[i]);
            } else {
                assert(kept[kept.len() - 1] == records[i]);
            }
        }
        assert forall|r: crate::record::RecordView| #[trigger] kept.contains(r) implies exists|
            i: int,
        |
            0 <= i < n && #[trigger] records[i] == r && r.source != Some(source)
                && !consumed.contains(i) by {
            let k = choose|k: int| 0 <= k < kept.len() && kept[k] == r;
            if k < before.len() {
                assert(before[k] == r);
                assert(before.contains(r));
            } else {
                assert(records[n - 1] == r);
            }
        }
    }
}

/// A record typed here stays in the file until the server has it.
pub proof fn law_typed_records_stay(p: crate::sync::PassView, i: int)
    requires
        0 <= i < p.records.len(),
        crate::sync::is_typed(p.records[i]),
        !p.consumed.contains(i),
    ensures
        crate::sync::final_records(p).contains(p.records[i]),
{
    let kept = crate::sync::kept_records(p.records, p.source, p.consumed);
    lemma_kept(p.records, p.source, p.consumed, p.records.len() as int);
    assert(p.records.take(p.records.len() as int) =~= p.records);
    let k = choose|k: int| 0 <= k < kept.len() && kept[k] == p.records[i];
    assert(crate::sync::final_records(p)[k] == p.records[i]);
}

/// The steps and the end of a pass leave the state of other accounts alone, but for an event
/// with an identity that this account has too.
pub proof fn law_other_accounts_keep_their_state(
    p: crate::sync::PassView,
    etag: Seq<char>,
    uid: Seq<char>,
)
    requires
        crate::sync::valid_pass(p),
        p.state.contains_key(uid),
        p.state[uid].source != p.source,
    ensures
        p.done < crate::sync::deletes_end(p.plan) ==> {
            let q = crate::sync::after_delete(p);
            q.state.contains_key(uid) && q.state[uid] == p.state[uid]
        },
        crate::sync::deletes_end(p.plan) <= p.done < crate::sync::updates_end(p.plan) ==> {
            let q = crate::sync::after_update(p, etag);
            q.state.contains_key(uid) && q.state[uid] == p.state[uid]
        },
        !p.remote.contains_key(uid) ==> {
            let s = crate::sync::final_state(p);
            s.contains_key(uid) && s[uid] == p.state[uid]
        },
{
    if p.done < crate::sync::deletes_end(p.plan) {
        assert(crate::sync::owned(p.state, p.source, p.plan.deletes[p.done]));
    } else if p.done < crate::sync::updates_end(p.plan) {
        let at = p.done - crate::sync::deletes_end(p.plan);
        assert(crate::sync::owned(p.state, p.source, p.plan.updates[at].0));
    }
}

// ── What comes of a request ───────────────────────────────────────────────

/// A record that the server has created is in the file with its identity, and in the state as
/// the server has it.
pub proof fn law_created_record_comes_back(
    p: crate::sync::PassView,
    uid: Seq<char>,
    url: Seq<char>,
    etag: Seq<char>,
)
    requires
        crate::sync::valid_pass(p),
        p.remote.dom().finite(),
        crate::sync::updates_end(p.plan) <= p.done < crate::sync::creates_end(p.plan),
    ensures
        ({
            let at = p.plan.creates[p.done - crate::sync::updates_end(p.plan)];
            let q = crate::sync::after_create(p, uid, url, etag);
            let s = crate::sync::final_state(q);
            &&& crate::sync::final_records(q).contains(
                crate::sync::identified(p.records[at], uid, p.source),
            )
            &&& s.contains_key(uid)
            &&& s[uid] == crate::record::synced_view(p.source, url, etag, p.records[at])
        }),
{
    let q = crate::sync::after_create(p, uid, url, etag);
    lemma_held_comes_back(q, uid);
}

/// A record whose change the server has made is in the file as it was changed, and in the
/// state as the server has it.
pub proof fn law_changed_record_comes_back(p: crate::sync::PassView, etag: Seq<char>)
    requires
        crate::sync::valid_pass(p),
        p.remote.dom().finite(),
        crate::sync::deletes_end(p.plan) <= p.done < crate::sync::updates_end(p.plan),
    ensures
        ({
            let (uid, local) = p.plan.updates[p.done - crate::sync::deletes_end(p.plan)];
            let q = crate::sync::after_update(p, etag);
            let s = crate::sync::final_state(q);
            &&& crate::sync::final_records(q).contains(
                crate::sync::identified(local, uid, p.source),
            )
            &&& s.contains_key(uid)
            &&& s[uid] == crate::record::synced_view(p.source, p.remote[uid].url, etag, local)
        }),
{
    let uid = p.plan.updates[p.done - crate::sync::deletes_end(p.plan)].0;
    assert(!crate::sync::gone(p.remote, uid));
    let q = crate::sync::after_update(p, etag);
    lemma_held_comes_back(q, uid);
}

/// Whether an event is the same in two passes, on the server and in the state.
pub open spec fn is_untouched(
    p: crate::sync::PassView,
    q: crate::sync::PassView,
    uid: Seq<char>,
) -> bool {
    &&& q.remote.contains_key(uid) == p.remote.contains_key(uid)
    &&& p.remote.contains_key(uid) ==> q.remote[uid] == p.remote[uid]
    &&& q.state.contains_key(uid) == p.state.contains_key(uid)
    &&& p.state.contains_key(uid) ==> q.state[uid] == p.state[uid]
}

/// A step touches one event only: what came of one request is not undone by the next, unless
/// that is about the same event. A request that failed touches none.
pub proof fn law_a_step_touches_one_event(
    p: crate::sync::PassView,
    uid: Seq<char>,
    url: Seq<char>,
    etag: Seq<char>,
    other: Seq<char>,
)
    ensures
        is_untouched(p, crate::sync::after_failure(p), other),
        other != p.plan.deletes[p.done] ==> is_untouched(p, crate::sync::after_delete(p), other),
        other != p.plan.updates[p.done - crate::sync::deletes_end(p.plan)].0 ==> is_untouched(
            p,
            crate::sync::after_update(p, etag),
            other,
        ),
        other != uid ==> is_untouched(p, crate::sync::after_create(p, uid, url, etag), other),
{
}

/// The first instance of an event that the server holds is in the file.
proof fn lemma_held_comes_back(q: crate::sync::PassView, uid: Seq<char>)
    requires
        q.remote.dom().finite(),
        crate::sync::is_held(q.remote, uid),
    ensures
        crate::sync::final_records(q).contains(q.remote[uid].instances[0]),
{
    let uids = crate::uid_map::in_order(q.remote.dom());
    crate::uid_map::lemma_listed(q.remote.dom());
    assert(uids.to_set().contains(uid));
    lemma_instance_among(uids, q.remote, uid, 0);
    let kept = crate::sync::kept_records(q.records, q.source, q.consumed);
    let mirrored = crate::sync::all_instances(uids, q.remote);
    let k = choose|k: int| 0 <= k < mirrored.len() && mirrored[k] == q.remote[uid].instances[0];
    assert(crate::sync::final_records(q)[kept.len() + k] == q.remote[uid].instances[0]);
}

/// Whether no instance of another event carries an identity.
pub open spec fn is_alone(
    remote: Map<Seq<char>, crate::remote::RemoteEventView>,
    source: Seq<char>,
    uid: Seq<char>,
) -> bool {
    forall|u: Seq<char>, k: int|
        remote.contains_key(u) && u != uid && 0 <= k < remote[u].instances.len()
            ==> !crate::sync::mirrors_uid(#[trigger] remote[u].instances[k], source, uid)
}

/// An event that the server has deleted is neither in the file nor in the state any more, where
/// no other event goes by its identity.
pub proof fn law_deleted_event_is_gone(p: crate::sync::PassView)
    requires
        crate::sync::valid_pass(p),
        p.remote.dom().finite(),
        p.done < crate::sync::deletes_end(p.plan),
        is_alone(p.remote, p.source, p.plan.deletes[p.done]),
    ensures
        ({
            let uid = p.plan.deletes[p.done];
            let q = crate::sync::after_delete(p);
            &&& !crate::sync::final_state(q).contains_key(uid)
            &&& forall|i: int|
                0 <= i < crate::sync::final_records(q).len() ==> !crate::sync::mirrors_uid(
                    #[trigger] crate::sync::final_records(q)[i],
                    p.source,
                    uid,
                )
        }),
{
    let uid = p.plan.deletes[p.done];
    let q = crate::sync::after_delete(p);
    let all = crate::sync::final_records(q);
    assert forall|i: int| 0 <= i < all.len() implies !crate::sync::mirrors_uid(
        #[trigger] all[i],
        p.source,
        uid,
    ) by {
        lemma_mirrored_by(q, i);
        if all[i].source == Some(p.source) {
            let u = choose|u: Seq<char>| #[trigger]
                q.remote.contains_key(u) && q.remote[u].instances.contains(all[i]);
            let k = choose|k: int|
                0 <= k < q.remote[u].instances.len() && q.remote[u].instances[k] == all[i];
            assert(p.remote[u].instances[k] == all[i]);
        }
    }
}

/// Each record of the file after a pass was there and does not mirror the account, or is an
/// instance of one of its events.
proof fn lemma_mirrored_by(p: crate::sync::PassView, i: int)
    requires
        p.remote.dom().finite(),
        0 <= i < crate::sync::final_records(p).len(),
    ensures
        ({
            let r = crate::sync::final_records(p)[i];
            ||| r.source != Some(p.source) && exists|j: int|
                0 <= j < p.records.len() && #[trigger] p.records[j] == r && !p.consumed.contains(j)
            ||| exists|u: Seq<char>| #[trigger]
                p.remote.contains_key(u) && p.remote[u].instances.contains(r)
        }),
{
    let uids = crate::uid_map::in_order(p.remote.dom());
    crate::uid_map::lemma_listed(p.remote.dom());
    let kept = crate::sync::kept_records(p.records, p.source, p.consumed);
    let r = crate::sync::final_records(p)[i];
    if i < kept.len() {
        lemma_kept(p.records, p.source, p.consumed, p.records.len() as int);
        assert(p.records.take(p.records.len() as int) =~= p.records);
        assert(kept[i] == r);
        assert(kept.contains(r));
    } else {
        let u = lemma_instance_of(uids, p.remote, i - kept.len());
        assert(uids.to_set().contains(u));
        assert(p.remote.contains_key(u));
    }
}

/// After a pass the records of the account are the instances of the events that the server
/// holds, no more and no fewer.
pub proof fn law_file_mirrors_the_account(p: crate::sync::PassView, r: crate::record::RecordView)
    requires
        p.remote.dom().finite(),
        r.source == Some(p.source),
    ensures
        crate::sync::final_records(p).contains(r) <==> exists|u: Seq<char>| #[trigger]
            p.remote.contains_key(u) && p.remote[u].instances.contains(r),
{
    let uids = crate::uid_map::in_order(p.remote.dom());
    crate::uid_map::lemma_listed(p.remote.dom());
    let all = crate::sync::final_records(p);
    let kept = crate::sync::kept_records(p.records, p.source, p.consumed);
    let mirrored = crate::sync::all_instances(uids, p.remote);
    lemma_not_kept(p, r);
    if all.contains(r) {
        let i = choose|i: int| 0 <= i < all.len() && all[i] == r;
        if i < kept.len() {
            assert(kept.contains(kept[i]));
        }
        let u = lemma_instance_of(uids, p.remote, i - kept.len());
        assert(uids.to_set().contains(u));
    }
    if exists|u: Seq<char>| #[trigger]
        p.remote.contains_key(u) && p.remote[u].instances.contains(r) {
        let u = choose|u: Seq<char>| #[trigger]
            p.remote.contains_key(u) && p.remote[u].instances.contains(r);
        let k = choose|k: int|
            0 <= k < p.remote[u].instances.len() && p.remote[u].instances[k] == r;
        assert(uids.to_set().contains(u));
        lemma_instance_among(uids, p.remote, u, k);
        let j = choose|j: int| 0 <= j < mirrored.len() && mirrored[j] == r;
        assert(all[kept.len() + j] == r);
    }
}

// ── What follows for the next pass ────────────────────────────────────────

/// What the last record that mirrors an event is.
pub proof fn lemma_last_local(
    records: Seq<crate::record::RecordView>,
    source: Seq<char>,
    uid: Seq<char>,
)
    ensures
        match crate::sync::last_local(records, source, uid) {
            Some(r) => records.contains(r) && crate::sync::mirrors_uid(r, source, uid),
            None => forall|r: crate::record::RecordView| #[trigger]
                records.contains(r) ==> !crate::sync::mirrors_uid(r, source, uid),
        },
    decreases records.len(),
{
    if records.len() > 0 {
        let rest = records.drop_last();
        lemma_last_local(rest, source, uid);
        assert(records[records.len() - 1] == records.last());
        if !crate::sync::mirrors_uid(records.last(), source, uid) {
            match crate::sync::last_local(rest, source, uid) {
                Some(r) => {
                    let k = choose|k: int| 0 <= k < rest.len() && rest[k] == r;
                    assert(records[k] == r);
                },
                None => {
                    assert forall|r: crate::record::RecordView| #[trigger]
                        records.contains(r) implies !crate::sync::mirrors_uid(r, source, uid) by {
                        let k = choose|k: int| 0 <= k < records.len() && records[k] == r;
                        if k < rest.len() {
                            assert(rest[k] == r);
                            assert(rest.contains(r));
                        }
                    }
                },
            }
        }
    }
}

/// How often a value is left after filtering.
proof fn lemma_filter_count<T>(s: Seq<T>, p: spec_fn(T) -> bool, x: T)
    ensures
        s.filter(p).to_multiset().count(x) == if p(x) {
            s.to_multiset().count(x)
        } else {
            0
        },
    decreases s.len(),
{
    broadcast use vstd::multiset::group_multiset_axioms;
    broadcast use vstd::seq_lib::group_to_multiset_ensures;

    reveal(Seq::filter);
    if s.len() > 0 {
        lemma_filter_count(s.drop_last(), p, x);
        assert(s =~= s.drop_last().push(s.last()));
    } else {
        assert(s.filter(p) =~= s);
    }
}

/// What a pass leaves alone when it has created nothing: the records that do not mirror the
/// account.
proof fn lemma_kept_is_filter(records: Seq<crate::record::RecordView>, source: Seq<char>)
    ensures
        crate::sync::kept_records(records, source, Set::empty()) == records.filter(
            |r: crate::record::RecordView| r.source != Some(source),
        ),
    decreases records.len(),
{
    reveal(Seq::filter);
    if records.len() > 0 {
        lemma_kept_is_filter(records.drop_last(), source);
    }
}

/// Whether the events of an account that do not repeat can be told by their identities: the
/// first instance of each carries its identity, and an event without an instance is not one that
/// the state knows.
pub open spec fn is_settled(p: crate::sync::PassView) -> bool {
    &&& forall|v: Seq<char>| #[trigger]
        crate::sync::is_held(p.remote, v) ==> crate::sync::mirrors_uid(
            p.remote[v].instances[0],
            p.source,
            v,
        )
    &&& forall|v: Seq<char>| #[trigger]
        crate::sync::owned(p.state, p.source, v) && !crate::sync::gone(p.remote, v)
            ==> p.remote[v].instances.len() > 0
}

/// The server, seen again as the last pass left it, gives the next pass nothing to do: it
/// requests nothing, forgets nothing, and leaves the state and the records of the file as they
/// are, in whatever order they were saved. Typed records are all on the server already if this
/// is the account they go to.
pub proof fn law_next_pass_is_quiet(
    p: crate::sync::PassView,
    records: Seq<crate::record::RecordView>,
    target: Option<Seq<char>>,
)
    requires
        crate::sync::valid_pass(p),
        p.remote.dom().finite(),
        is_marked(p.remote, p.source),
        is_settled(p),
        records.to_multiset() == crate::sync::final_records(p).to_multiset(),
        target is Some ==> forall|i: int|
            0 <= i < p.records.len() && crate::sync::is_typed(#[trigger] p.records[i])
                ==> p.consumed.contains(i),
    ensures
        ({
            let q = crate::sync::begun(
                p.source,
                records,
                crate::sync::final_state(p),
                p.remote,
                target,
            );
            &&& q.plan.deletes.len() == 0
            &&& q.plan.updates.len() == 0
            &&& q.plan.creates.len() == 0
            &&& q.plan.forget.len() == 0
            &&& crate::sync::final_state(q) == crate::sync::final_state(p)
            &&& crate::sync::final_records(q).to_multiset() == records.to_multiset()
        }),
{
    broadcast use vstd::multiset::group_multiset_axioms;
    broadcast use vstd::seq_lib::group_to_multiset_ensures;

    let state = crate::sync::final_state(p);
    let all = crate::sync::final_records(p);
    let source = p.source;
    let q = crate::sync::begun(source, records, state, p.remote, target);
    let uids = crate::uid_map::in_order(state.dom());
    assert forall|r: crate::record::RecordView| #[trigger] records.contains(r) == all.contains(
        r,
    ) by {
        assert(records.to_multiset().contains(r) == all.to_multiset().contains(r));
    }
    assert forall|u: Seq<char>| !crate::sync::to_forget(state, p.remote, source, u) by {
        if p.state.contains_key(u) && crate::sync::owned(state, source, u) {
            assert(crate::sync::owned(p.state, source, u) || crate::sync::is_held(p.remote, u));
        }
    }
    assert forall|u: Seq<char>|
        #![trigger crate::sync::to_delete(records, state, p.remote, source, u)]
        #![trigger crate::sync::to_update(records, state, p.remote, source, u)]
        !crate::sync::to_delete(records, state, p.remote, source, u) && !crate::sync::to_update(
            records,
            state,
            p.remote,
            source,
            u,
        ) by {
        if crate::sync::owned(state, source, u) && !crate::sync::gone(p.remote, u) {
            assert(crate::sync::is_held(p.remote, u)) by {
                if !crate::sync::is_held(p.remote, u) {
                    assert(crate::sync::owned(p.state, source, u));
                }
            }
            let first = p.remote[u].instances[0];
            lemma_held_comes_back(p, u);
            assert(records.contains(first));
            lemma_last_local(records, source, u);
            let r = crate::sync::last_local(records, source, u)->0;
            let i = choose|i: int| 0 <= i < records.len() && records[i] == first;
            let j = choose|j: int| 0 <= j < records.len() && records[j] == r;
            if crate::sync::is_one_record(records, source, u) {
                assert(crate::sync::mirrors_uid(records[i], source, u));
                assert(crate::sync::mirrors_uid(records[j], source, u));
            }
        }
    }
    uids.lemma_all_neg_filter_empty(
        |u: Seq<char>| crate::sync::to_delete(records, state, p.remote, source, u),
    );
    uids.lemma_all_neg_filter_empty(
        |u: Seq<char>| crate::sync::to_update(records, state, p.remote, source, u),
    );
    uids.lemma_all_neg_filter_empty(
        |u: Seq<char>| crate::sync::to_forget(state, p.remote, source, u),
    );
    if target is Some && q.plan.creates.len() > 0 {
        crate::sync::lemma_typed_places(records);
        let at = q.plan.creates[0];
        assert(crate::sync::typed_places(records).contains(at));
        let r = records[at];
        assert(records.contains(r));
        let i = choose|i: int| 0 <= i < all.len() && all[i] == r;
        lemma_mirrored_by(p, i);
        if exists|u: Seq<char>| #[trigger]
            p.remote.contains_key(u) && p.remote[u].instances.contains(r) {
            let u = choose|u: Seq<char>| #[trigger]
                p.remote.contains_key(u) && p.remote[u].instances.contains(r);
            let k = choose|k: int|
                0 <= k < p.remote[u].instances.len() && p.remote[u].instances[k] == r;
            assert(p.remote[u].instances[k].source == Some(source));
        }
    }
    assert(crate::sync::final_state(q) =~= state);
    let mirrored = crate::sync::all_instances(
        crate::uid_map::in_order(p.remote.dom()),
        p.remote,
    );
    let not_ours = |r: crate::record::RecordView| r.source != Some(source);
    lemma_kept_is_filter(records, source);
    let kept = crate::sync::kept_records(p.records, source, p.consumed);
    assert forall|x: crate::record::RecordView|
        crate::sync::final_records(q).to_multiset().count(x) == records.to_multiset().count(x) by {
        vstd::seq_lib::lemma_multiset_commutative(records.filter(not_ours), mirrored);
        vstd::seq_lib::lemma_multiset_commutative(kept, mirrored);
        lemma_filter_count(records, not_ours, x);
        if not_ours(x) {
            lemma_not_mirrored(p, x);
        } else {
            lemma_not_kept(p, x);
        }
    }
    assert(crate::sync::final_records(q).to_multiset() =~= records.to_multiset());
}

/// A record that does not mirror the account is no instance of its events.
proof fn lemma_not_mirrored(p: crate::sync::PassView, r: crate::record::RecordView)
    requires
        p.remote.dom().finite(),
        is_marked(p.remote, p.source),
        r.source != Some(p.source),
    ensures
        !crate::sync::all_instances(
            crate::uid_map::in_order(p.remote.dom()),
            p.remote,
        ).contains(r),
{
    let uids = crate::uid_map::in_order(p.remote.dom());
    let mirrored = crate::sync::all_instances(uids, p.remote);
    if mirrored.contains(r) {
        crate::uid_map::lemma_listed(p.remote.dom());
        let i = choose|i: int| 0 <= i < mirrored.len() && mirrored[i] == r;
        let u = lemma_instance_of(uids, p.remote, i);
        assert(uids.to_set().contains(u));
        let k = choose|k: int|
            0 <= k < p.remote[u].instances.len() && p.remote[u].instances[k] == r;
        assert(p.remote[u].instances[k].source == Some(p.source));
    }
}

/// A record that mirrors the account is not left alone.
proof fn lemma_not_kept(p: crate::sync::PassView, r: crate::record::RecordView)
    requires
        r.source == Some(p.source),
    ensures
        !crate::sync::kept_records(p.records, p.source, p.consumed).contains(r),
{
    lemma_kept(p.records, p.source, p.consumed, p.records.len() as int);
    assert(p.records.take(p.records.len() as int) =~= p.records);
}

} // verus!
