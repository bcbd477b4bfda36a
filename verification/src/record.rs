//! The event records of the calendar file and the state of the last sync.
use vstd::prelude::*;

use crate::order::{stable_sort, Ranked};
use crate::text::{text_at_most, text_eq};
use crate::uid_map::UidMap;

verus! {

/// One event of the calendar file. The file is a flat list of these, which keeps it
/// mergeable and greppable.
///
/// `uid` and `source` are set only on records mirrored from a remote calendar; events
/// entered by hand carry neither until the sync has pushed them to the default calendar and
/// written the identity back. `recurring` marks an expanded instance of a repeating event:
/// those are mirrored read-only, and the calendar refuses to delete them.
#[derive(Debug, PartialEq, Eq)]
pub struct EventRecord {
    pub date: String,
    pub time: Option<String>,
    pub title: String,
    pub uid: Option<String>,
    pub source: Option<String>,
    pub recurring: bool,
}

/// What an event record says.
#[verifier::ext_equal]
pub struct RecordView {
    pub date: Seq<char>,
    pub time: Option<Seq<char>>,
    pub title: Seq<char>,
    pub uid: Option<Seq<char>>,
    pub source: Option<Seq<char>>,
    pub recurring: bool,
}

impl View for EventRecord {
    type V = RecordView;

    open spec fn view(&self) -> RecordView {
        RecordView {
            date: self.date@,
            time: crate::text::opt_text(self.time),
            title: self.title@,
            uid: crate::text::opt_text(self.uid),
            source: crate::text::opt_text(self.source),
            recurring: self.recurring,
        }
    }
}

/// What a list of records says.
pub open spec fn record_views(records: Seq<EventRecord>) -> Seq<RecordView> {
    Seq::new(records.len(), |i: int| records[i]@)
}

/// Copies an optional text.
pub fn copy_opt(s: &Option<String>) -> (r: Option<String>)
    ensures
        crate::text::opt_text(r) == crate::text::opt_text(*s),
{
    match s {
        Some(t) => Some(t.clone()),
        None => None,
    }
}

/// Whether two optional texts are the same.
pub fn opt_eq(a: &Option<String>, b: &Option<String>) -> (r: bool)
    ensures
        r == (crate::text::opt_text(*a) == crate::text::opt_text(*b)),
{
    match (a, b) {
        (Some(x), Some(y)) => text_eq(x.as_str(), y.as_str()),
        (None, None) => true,
        _ => false,
    }
}

/// Whether an optional text is there and is `b`.
pub fn opt_is(a: &Option<String>, b: &str) -> (r: bool)
    ensures
        r == (crate::text::opt_text(*a) == Some(b@)),
{
    match a {
        Some(x) => text_eq(x.as_str(), b),
        None => false,
    }
}

impl Clone for EventRecord {
    fn clone(&self) -> (r: Self)
        ensures
            r@ == self@,
    {
        EventRecord {
            date: self.date.clone(),
            time: copy_opt(&self.time),
            title: self.title.clone(),
            uid: copy_opt(&self.uid),
            source: copy_opt(&self.source),
            recurring: self.recurring,
        }
    }
}

/// The order of the records in the file: by date, timed before untimed, by time, by title.
pub open spec fn record_le(a: RecordView, b: RecordView) -> bool {
    if a.date != b.date {
        crate::text::text_le(a.date, b.date)
    } else if a.time is None != b.time is None {
        a.time is Some
    } else if a.time != b.time {
        crate::text::text_le(a.time->0, b.time->0)
    } else {
        crate::text::text_le(a.title, b.title)
    }
}

impl Ranked for EventRecord {
    open spec fn at_most(&self, other: &Self) -> bool {
        record_le(self@, other@)
    }

    proof fn total(a: &Self, b: &Self) {
        crate::text::lemma_text_le_total(a@.date, b@.date);
        crate::text::lemma_text_le_total(a@.title, b@.title);
        if a@.time is Some && b@.time is Some {
            crate::text::lemma_text_le_total(a@.time->0, b@.time->0);
        }
    }

    proof fn transitive(a: &Self, b: &Self, c: &Self) {
        let (x, y, z) = (a@, b@, c@);
        if x.date != y.date && y.date != z.date {
            crate::text::lemma_text_le_transitive(x.date, y.date, z.date);
            if x.date == z.date {
                crate::text::lemma_text_le_antisymmetric(x.date, y.date);
            }
        } else if x.date == y.date && y.date == z.date && x.time is Some && y.time is Some
            && z.time is Some && x.time != y.time && y.time != z.time {
            crate::text::lemma_text_le_transitive(x.time->0, y.time->0, z.time->0);
            if x.time == z.time {
                crate::text::lemma_text_le_antisymmetric(x.time->0, y.time->0);
            }
        } else if x.date == y.date && y.date == z.date && x.time == y.time && y.time == z.time {
            crate::text::lemma_text_le_transitive(x.title, y.title, z.title);
        }
    }

    fn is_at_most(&self, other: &Self) -> (r: bool) {
        if !text_eq(self.date.as_str(), other.date.as_str()) {
            return text_at_most(self.date.as_str(), other.date.as_str());
        }
        match (&self.time, &other.time) {
            (None, Some(_)) => false,
            (Some(_), None) => true,
            (Some(a), Some(b)) => {
                if !text_eq(a.as_str(), b.as_str()) {
                    text_at_most(a.as_str(), b.as_str())
                } else {
                    text_at_most(self.title.as_str(), other.title.as_str())
                }
            },
            (None, None) => text_at_most(self.title.as_str(), other.title.as_str()),
        }
    }
}

/// Puts the records into the stable order of the file: by date, timed before untimed, then
/// by time and title. Records that agree in all of these keep their order.
pub fn sort_records(records: &mut Vec<EventRecord>)
    ensures
        crate::order::sorted(final(records)@),
        crate::order::stably_rearranged(old(records)@, final(records)@),
{
    stable_sort(records);
}

// ── Sync state ────────────────────────────────────────────────────────────

/// What the server held for one event that does not repeat, at the end of the last sync.
/// Comparing the file and the server against this tells a change made here from one made
/// elsewhere; an identity in the state but not in the file is a deletion to push.
#[derive(Debug)]
pub struct SyncedEvent {
    /// `icloud:<email>` or `google:<email>`.
    pub source: String,
    /// The address of the resource, the target of updates and deletions.
    pub url: String,
    pub etag: String,
    pub date: String,
    pub time: Option<String>,
    pub title: String,
}

/// What a synced event says.
#[verifier::ext_equal]
pub struct SyncedView {
    pub source: Seq<char>,
    pub url: Seq<char>,
    pub etag: Seq<char>,
    pub date: Seq<char>,
    pub time: Option<Seq<char>>,
    pub title: Seq<char>,
}

impl View for SyncedEvent {
    type V = SyncedView;

    open spec fn view(&self) -> SyncedView {
        SyncedView {
            source: self.source@,
            url: self.url@,
            etag: self.etag@,
            date: self.date@,
            time: crate::text::opt_text(self.time),
            title: self.title@,
        }
    }
}

impl Clone for SyncedEvent {
    fn clone(&self) -> (r: Self)
        ensures
            r@ == self@,
    {
        SyncedEvent {
            source: self.source.clone(),
            url: self.url.clone(),
            etag: self.etag.clone(),
            date: self.date.clone(),
            time: copy_opt(&self.time),
            title: self.title.clone(),
        }
    }
}

/// Whether a record has the date, time and title that the server held.
pub open spec fn unchanged(s: SyncedView, r: RecordView) -> bool {
    s.date == r.date && s.time == r.time && s.title == r.title
}

impl SyncedEvent {
    /// Whether the record still says what the server held: the same date, time and title.
    pub fn matches(&self, r: &EventRecord) -> (same: bool)
        ensures
            same == unchanged(self@, r@),
    {
        text_eq(self.date.as_str(), r.date.as_str()) && opt_eq(&self.time, &r.time) && text_eq(
            self.title.as_str(),
            r.title.as_str(),
        )
    }
}

/// The state entry for a record that the server holds.
pub open spec fn synced_view(
    source: Seq<char>,
    url: Seq<char>,
    etag: Seq<char>,
    r: RecordView,
) -> SyncedView {
    SyncedView { source, url, etag, date: r.date, time: r.time, title: r.title }
}

/// The state entry for a record that the server holds.
pub fn synced(source: &str, url: &str, etag: &str, r: &EventRecord) -> (s: SyncedEvent)
    ensures
        s@ == synced_view(source@, url@, etag@, r@),
{
    SyncedEvent {
        source: source.to_owned(),
        url: url.to_owned(),
        etag: etag.to_owned(),
        date: r.date.clone(),
        time: copy_opt(&r.time),
        title: r.title.clone(),
    }
}

/// The events of the last sync by identity.
#[derive(Debug, Clone)]
pub struct SyncState {
    pub events: UidMap<SyncedEvent>,
}

impl Default for SyncState {
    /// The state before any sync.
    fn default() -> (s: Self)
        ensures
            s.events.wf(),
            s.events@ == Map::<Seq<char>, SyncedEvent>::empty(),
    {
        SyncState { events: UidMap::new() }
    }
}

/// Where events typed into the calendar are created.
#[derive(Debug, Clone, PartialEq, Eq)]
pub struct PushTarget {
    /// `icloud`, `google` or `none`.
    pub kind: String,
    pub calendar: Option<String>,
}

} // verus!
