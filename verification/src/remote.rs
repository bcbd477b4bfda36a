//! What a server holds, in the form that every kind of server is brought into.
use vstd::prelude::*;

use crate::record::{EventRecord, PushTarget};
use crate::text::eq_ignore_case;
use crate::uid_map::UidMap;

verus! {

/// A calendar of an account.
#[derive(Debug)]
pub struct RemoteCalendar {
    /// Where a new event is created: the address of a collection or the id of a calendar.
    pub target: String,
    pub name: String,
    pub primary: bool,
}

#[verifier::ext_equal]
pub struct CalendarView {
    pub target: Seq<char>,
    pub name: Seq<char>,
    pub primary: bool,
}

impl View for RemoteCalendar {
    type V = CalendarView;

    open spec fn view(&self) -> CalendarView {
        CalendarView { target: self.target@, name: self.name@, primary: self.primary }
    }
}

/// What a list of calendars says.
pub open spec fn calendar_views(calendars: Seq<RemoteCalendar>) -> Seq<CalendarView> {
    Seq::new(calendars.len(), |i: int| calendars[i]@)
}

/// An event of an account.
#[derive(Debug)]
pub struct RemoteEvent {
    /// The address of the resource.
    pub url: String,
    pub etag: String,
    pub recurring: bool,
    /// Every dated instance in the window, ready for the file.
    pub instances: Vec<EventRecord>,
    /// The unfolded lines of the resource, where it is an iCalendar text.
    pub lines: Vec<String>,
}

#[verifier::ext_equal]
pub struct RemoteEventView {
    pub url: Seq<char>,
    pub etag: Seq<char>,
    pub recurring: bool,
    pub instances: Seq<crate::record::RecordView>,
    pub lines: Seq<Seq<char>>,
}

impl View for RemoteEvent {
    type V = RemoteEventView;

    open spec fn view(&self) -> RemoteEventView {
        RemoteEventView {
            url: self.url@,
            etag: self.etag@,
            recurring: self.recurring,
            instances: crate::record::record_views(self.instances@),
            lines: crate::text::texts(self.lines@),
        }
    }
}

/// The calendars of an account and its events by identity.
pub struct Remote {
    pub calendars: Vec<RemoteCalendar>,
    pub events: UidMap<RemoteEvent>,
}

/// The events of an account by identity.
pub open spec fn remote_views(m: Map<Seq<char>, RemoteEvent>) -> Map<Seq<char>, RemoteEventView> {
    m.map_values(|e: RemoteEvent| e@)
}

/// Why the account cannot be synced.
#[derive(Clone, Copy, Debug, PartialEq, Eq, Structural)]
pub enum SyncError {
    /// More deletions would be pushed than is plausible.
    RefusedDeletes { count: usize, known: usize },
    /// The calendar for new events is not on the account.
    NoSuchCalendar,
    /// The account has no calendar.
    NoCalendar,
}

/// The place of the first calendar that has the name, in any letter case, or the number of
/// calendars.
pub open spec fn first_named(calendars: Seq<CalendarView>, name: Seq<char>) -> int
    decreases calendars.len(),
{
    if calendars.len() == 0 || crate::text::same_letters(calendars[0].name, name) {
        0
    } else {
        1 + first_named(calendars.drop_first(), name)
    }
}

/// The place of the first primary calendar, or the number of calendars.
pub open spec fn first_primary(calendars: Seq<CalendarView>) -> int
    decreases calendars.len(),
{
    if calendars.len() == 0 || calendars[0].primary {
        0
    } else {
        1 + first_primary(calendars.drop_first())
    }
}

/// The place of the calendar on which typed events are created: the first with the wanted
/// name, in any letter case; where no name is wanted the primary calendar, else the first.
pub open spec fn target_place(
    calendars: Seq<CalendarView>,
    wanted: Option<Seq<char>>,
) -> Result<int, SyncError> {
    match wanted {
        Some(name) => {
            let at = first_named(calendars, name);
            if at < calendars.len() {
                Ok(at)
            } else {
                Err(SyncError::NoSuchCalendar)
            }
        },
        None => if calendars.len() == 0 {
            Err(SyncError::NoCalendar)
        } else if first_primary(calendars) < calendars.len() {
            Ok(first_primary(calendars))
        } else {
            Ok(0)
        },
    }
}

/// Picks the calendar on which typed events are created.
pub fn pick_target(calendars: &Vec<RemoteCalendar>, push: &PushTarget) -> (at: Result<
    usize,
    SyncError,
>)
    ensures
        match target_place(calendar_views(calendars@), crate::text::opt_text(push.calendar)) {
            Ok(place) => at matches Ok(i) && i == place && i < calendars@.len(),
            Err(e) => at == Err::<usize, SyncError>(e),
        },
{
    let ghost all = calendar_views(calendars@);
    assert(all.skip(0) =~= all);
    if let Some(name) = &push.calendar {
        let mut i: usize = 0;
        while i < calendars.len()
            invariant
                all == calendar_views(calendars@),
                i <= all.len(),
                crate::text::opt_text(push.calendar) == Some(name@),
                first_named(all, name@) == i + first_named(all.skip(i as int), name@),
            decreases all.len() - i,
        {
            assert(all.skip(i as int).drop_first() =~= all.skip(i + 1));
            assert(all.skip(i as int)[0] == all[i as int]);
            if eq_ignore_case(calendars[i].name.as_str(), name.as_str()) {
                return Ok(i);
            }
            i = i + 1;
        }
        return Err(SyncError::NoSuchCalendar);
    }
    let mut i: usize = 0;
    while i < calendars.len()
        invariant
            all == calendar_views(calendars@),
            i <= all.len(),
            push.calendar is None,
            first_primary(all) == i + first_primary(all.skip(i as int)),
        decreases all.len() - i,
    {
        assert(all.skip(i as int).drop_first() =~= all.skip(i + 1));
        assert(all.skip(i as int)[0] == all[i as int]);
        if calendars[i].primary {
            return Ok(i);
        }
        i = i + 1;
    }
    if calendars.len() == 0 {
        Err(SyncError::NoCalendar)
    } else {
        Ok(0)
    }
}

} // verus!
