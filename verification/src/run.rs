//! What a run of the sync decides before, between and after its passes.
use vstd::prelude::*;

use crate::accounts::Backend;
use crate::date::{minus_days, plus_days, Date};
use crate::record::{PushTarget, SyncState};
use crate::text::text_eq;

verus! {

/// How far back events are mirrored.
pub const PAST_DAYS: u64 = 60;

/// How far ahead events are mirrored: far enough for next spring, near enough for a file that
/// can be read at a glance.
pub const FUTURE_DAYS: u64 = 400;

// ── Before ────────────────────────────────────────────────────────────────

/// Whether a text is among others.
pub open spec fn is_among(list: Seq<String>, text: Seq<char>) -> bool {
    crate::text::texts(list).contains(text)
}

/// Whether an option is among the arguments.
pub fn has_option(args: &Vec<String>, option: &str) -> (r: bool)
    ensures
        r == is_among(args@, option@),
{
    let ghost all = crate::text::texts(args@);
    let mut i: usize = 0;
    while i < args.len()
        invariant
            all == crate::text::texts(args@),
            i <= args@.len(),
            forall|j: int| 0 <= j < i ==> #[trigger] all[j] != option@,
        decreases args@.len() - i,
    {
        if text_eq(args[i].as_str(), option) {
            assert(all[i as int] == option@);
            return true;
        }
        i = i + 1;
    }
    false
}

/// What the arguments ask for: only to say what would be done, and to push deletions however
/// many they are.
pub fn read_options(args: &Vec<String>) -> (r: (bool, bool))
    ensures
        r.0 == is_among(args@, "--dry-run"@),
        r.1 == is_among(args@, "--force-deletes"@),
{
    (has_option(args, "--dry-run"), has_option(args, "--force-deletes"))
}

/// The first and the last day whose events are mirrored. Where the calendar does not reach so
/// far it is the day itself.
pub fn sync_window(today: Date) -> (w: (Date, Date))
    requires
        crate::date::valid_date(today),
    ensures
        crate::date::valid_date(w.0),
        crate::date::valid_date(w.1),
        ({
            let n = crate::date::day_number(today);
            &&& crate::date::day_number(w.0) == if n - PAST_DAYS >= crate::date::day_number(
                crate::date::min_date(),
            ) {
                n - PAST_DAYS
            } else {
                n
            }
            &&& crate::date::day_number(w.1) == if n + FUTURE_DAYS <= crate::date::day_number(
                crate::date::max_date(),
            ) {
                n + FUTURE_DAYS
            } else {
                n
            }
        }),
{
    let start = match minus_days(today, PAST_DAYS) {
        Some(d) => {
            proof {
                crate::date::lemma_number_bounds(d);
            }
            d
        },
        None => today,
    };
    let end = match plus_days(today, FUTURE_DAYS) {
        Some(d) => {
            proof {
                crate::date::lemma_number_bounds(d);
            }
            d
        },
        None => today,
    };
    (start, end)
}

/// The state to go by: without the file of the events it is discarded, so that its absence is
/// not taken for the deletion of every event.
pub fn usable_state(had_file: bool, state: SyncState) -> (s: SyncState)
    requires
        state.events.wf(),
    ensures
        s.events.wf(),
        s.events@ == if had_file {
            state.events@
        } else {
            Map::empty()
        },
{
    if had_file {
        state
    } else {
        SyncState::default()
    }
}

// ── Where typed events go ─────────────────────────────────────────────────

/// Where typed events go: as it is set, else to iCloud where there is such an account, else to
/// Google.
pub fn choose_target(config: Option<PushTarget>, has_icloud: bool) -> (t: PushTarget)
    ensures
        match config {
            Some(c) => t == c,
            None => t.calendar is None && t.kind@ == if has_icloud {
                "icloud"@
            } else {
                "google"@
            },
        },
{
    match config {
        Some(c) => c,
        None => PushTarget {
            kind: (if has_icloud {
                "icloud"
            } else {
                "google"
            }).to_owned(),
            calendar: None,
        },
    }
}

/// The place of the first account of a kind, or the number of accounts.
pub open spec fn first_of_kind(backends: Seq<Backend>, kind: Seq<char>) -> int
    decreases backends.len(),
{
    if backends.len() == 0 || crate::accounts::kind_of(backends[0]) == kind {
        0
    } else {
        1 + first_of_kind(backends.drop_first(), kind)
    }
}

/// Whether typed events go to an account: it is the first of the kind they go to.
pub fn is_push_target(backends: &Vec<Backend>, at: usize, push: &PushTarget) -> (r: bool)
    requires
        at < backends@.len(),
    ensures
        r == (at == first_of_kind(backends@, push.kind@)),
{
    let ghost all = backends@;
    let ghost kind = push.kind@;
    let mut i: usize = 0;
    assert(all.skip(0) =~= all);
    while i < backends.len()
        invariant
            all == backends@,
            kind == push.kind@,
            i <= backends@.len(),
            at < backends@.len(),
            first_of_kind(all, kind) == i + first_of_kind(all.skip(i as int), kind),
        decreases backends@.len() - i,
    {
        assert(all.skip(i as int)[0] == all[i as int]);
        assert(all.skip(i as int).drop_first() =~= all.skip(i + 1));
        if text_eq(backends[i].kind(), push.kind.as_str()) {
            return i == at;
        }
        i = i + 1;
    }
    false
}

proof fn lemma_first_of_kind(backends: Seq<Backend>, kind: Seq<char>)
    ensures
        0 <= first_of_kind(backends, kind) <= backends.len(),
    decreases backends.len(),
{
    if backends.len() > 0 && crate::accounts::kind_of(backends[0]) != kind {
        lemma_first_of_kind(backends.drop_first(), kind);
    }
}

/// An account that typed events go to is of the kind that is set; no account is where that
/// kind is neither iCloud nor Google.
pub proof fn law_typed_events_go_by_kind(backends: Seq<Backend>, kind: Seq<char>, at: int)
    requires
        0 <= at < backends.len(),
        at == first_of_kind(backends, kind),
    ensures
        crate::accounts::kind_of(backends[at]) == kind,
        kind == "icloud"@ || kind == "google"@,
    decreases backends.len(),
{
    if crate::accounts::kind_of(backends[0]) != kind {
        lemma_first_of_kind(backends.drop_first(), kind);
        law_typed_events_go_by_kind(backends.drop_first(), kind, at - 1);
    }
}

// ── After ─────────────────────────────────────────────────────────────────

/// What has come of a run so far.
#[derive(Clone, Copy, Debug)]
pub struct Outcome {
    /// Whether an account was synced.
    pub synced: bool,
    /// Whether something failed.
    pub failed: bool,
}

impl Outcome {
    /// Nothing yet.
    pub fn new() -> (o: Outcome)
        ensures
            !o.synced,
            !o.failed,
    {
        Outcome { synced: false, failed: false }
    }

    /// A pass is over. A failed one does not stop the others.
    pub fn passed(&mut self, ok: bool)
        ensures
            final(self).synced == (old(self).synced || ok),
            final(self).failed == (old(self).failed || !ok),
    {
        if ok {
            self.synced = true;
        } else {
            self.failed = true;
        }
    }

    /// Whether the file and the state are to be saved: what was synced is, though another
    /// account failed.
    pub fn is_to_be_saved(&self, dry_run: bool) -> (r: bool)
        ensures
            r == (self.synced && !dry_run),
    {
        self.synced && !dry_run
    }

    /// A file was saved, or could not be.
    pub fn saved(&mut self, ok: bool)
        ensures
            final(self).synced == old(self).synced,
            final(self).failed == (old(self).failed || !ok),
    {
        if !ok {
            self.failed = true;
        }
    }

    /// The status with which the run ends.
    pub fn exit_status(&self) -> (n: i32)
        ensures
            n == if self.failed {
                1i32
            } else {
                0i32
            },
    {
        if self.failed {
            1
        } else {
            0
        }
    }
}

} // verus!
