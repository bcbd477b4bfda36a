//! The settings of the calendar, in KDL.
use vstd::prelude::*;

use crate::record::PushTarget;
use crate::text::{text_eq, to_lower};

verus! {

/// An argument or a property of a node: the name of a property, and the value where it is a
/// string.
pub struct Entry {
    pub name: Option<String>,
    pub value: Option<String>,
}

#[verifier::ext_equal]
pub struct EntryView {
    pub name: Option<Seq<char>>,
    pub value: Option<Seq<char>>,
}

impl View for Entry {
    type V = EntryView;

    open spec fn view(&self) -> EntryView {
        EntryView {
            name: crate::text::opt_text(self.name),
            value: crate::text::opt_text(self.value),
        }
    }
}

/// What a list of entries says.
pub open spec fn entry_views(list: Seq<Entry>) -> Seq<EntryView> {
    Seq::new(list.len(), |i: int| list[i]@)
}

/// The entries of the first node with a name in a KDL document; none when there is no such
/// node, or the text is not a document.
pub uninterp spec fn kdl_entries(text: Seq<char>, node: Seq<char>) -> Option<Seq<EntryView>>;

/// `kdl::KdlDocument` read from a text, and of its `get` by a name the `entries`, each with what
/// its `name`, and `as_string` of its `value`, say.
#[verifier::external_body]
pub(crate) fn read_entries(text: &str, node: &str) -> (list: Option<Vec<Entry>>)
    ensures
        match list {
            Some(list) => kdl_entries(text@, node@) == Some(entry_views(list@)),
            None => kdl_entries(text@, node@) is None,
        },
{
    let doc = text.parse::<kdl::KdlDocument>().ok()?;
    Some(doc.get(node)?.entries().iter().map(|e| Entry {
        name: e.name().map(|n| n.value().to_string()),
        value: e.value().as_string().map(String::from),
    }).collect())
}

// ── Where typed events go ─────────────────────────────────────────────────

/// The value of the first entry with a name, or of the first argument for no name.
pub open spec fn value_of(entries: Seq<EntryView>, name: Option<Seq<char>>) -> Option<Seq<char>>
    decreases entries.len(),
{
    if entries.len() == 0 {
        None
    } else if entries[0].name == name {
        entries[0].value
    } else {
        value_of(entries.drop_first(), name)
    }
}

fn find_value(entries: &Vec<Entry>, name: Option<&str>) -> (value: Option<String>)
    ensures
        crate::text::opt_text(value) == value_of(
            entry_views(entries@),
            match name {
                Some(n) => Some(n@),
                None => None,
            },
        ),
{
    let ghost all = entry_views(entries@);
    let ghost wanted = match name {
        Some(n) => Some(n@),
        None => None,
    };
    let mut i: usize = 0;
    assert(all.skip(0) =~= all);
    while i < entries.len()
        invariant
            all == entry_views(entries@),
            wanted == match name {
                Some(n) => Some(n@),
                None => None,
            },
            i <= entries@.len(),
            value_of(all, wanted) == value_of(all.skip(i as int), wanted),
        decreases entries@.len() - i,
    {
        assert(all.skip(i as int)[0] == entries@[i as int]@);
        assert(all.skip(i as int).drop_first() =~= all.skip(i + 1));
        let same = match (&entries[i].name, name) {
            (None, None) => true,
            (Some(a), Some(b)) => text_eq(a.as_str(), b),
            _ => false,
        };
        if same {
            return crate::record::copy_opt(&entries[i].value);
        }
        i = i + 1;
    }
    None
}

/// Where typed events go, by the entries of the setting: the kind of account, in lower case,
/// and the name of a calendar.
pub open spec fn target_of(entries: Seq<EntryView>) -> Option<(Seq<char>, Option<Seq<char>>)> {
    match value_of(entries, None) {
        None => None,
        Some(kind) => Some((crate::text::lower(kind), value_of(entries, Some("calendar"@)))),
    }
}

/// The view of an optional target.
pub open spec fn opt_target(t: Option<PushTarget>) -> Option<(Seq<char>, Option<Seq<char>>)> {
    match t {
        Some(t) => Some((t.kind@, crate::text::opt_text(t.calendar))),
        None => None,
    }
}

/// Where typed events go, by the entries of the setting.
pub fn read_target(entries: &Vec<Entry>) -> (t: Option<PushTarget>)
    ensures
        opt_target(t) == target_of(entry_views(entries@)),
{
    match find_value(entries, None) {
        None => None,
        Some(kind) => Some(
            PushTarget {
                kind: to_lower(kind.as_str()),
                calendar: find_value(entries, Some("calendar")),
            },
        ),
    }
}

/// Where typed events go, by the settings:
///
/// ```kdl
/// push-to "icloud"                      // the first iCloud calendar for events
/// push-to "icloud" calendar="Home"      // a named one
/// push-to "google"                      // the primary Google calendar
/// push-to "none"                        // typed events stay here
/// ```
pub fn push_target_config(text: &str) -> (t: Option<PushTarget>)
    ensures
        opt_target(t) == match kdl_entries(text@, "push-to"@) {
            Some(entries) => target_of(entries),
            None => None,
        },
{
    match read_entries(text, "push-to") {
        Some(entries) => read_target(&entries),
        None => None,
    }
}

// ── The first day of the week ─────────────────────────────────────────────

/// A day of the week.
#[derive(Clone, Copy, Debug, PartialEq, Eq, Structural)]
pub enum Weekday {
    Mon,
    Tue,
    Wed,
    Thu,
    Fri,
    Sat,
    Sun,
}

/// The day with which weeks begin, by the value of the setting: Monday unless it says Sunday
/// or Saturday, in full or by its first three letters.
pub open spec fn week_start_of(value: Option<Seq<char>>) -> Weekday {
    match value {
        Some(v) => {
            let v = crate::text::lower(v);
            if v == "sunday"@ || v == "sun"@ {
                Weekday::Sun
            } else if v == "saturday"@ || v == "sat"@ {
                Weekday::Sat
            } else {
                Weekday::Mon
            }
        },
        None => Weekday::Mon,
    }
}

/// The day with which weeks begin, by the value of the setting.
pub fn read_week_start(value: Option<&String>) -> (day: Weekday)
    ensures
        day == week_start_of(crate::xml::text_of(value)),
{
    match value {
        Some(v) => {
            let v = to_lower(v.as_str());
            if text_eq(v.as_str(), "sunday") || text_eq(v.as_str(), "sun") {
                Weekday::Sun
            } else if text_eq(v.as_str(), "saturday") || text_eq(v.as_str(), "sat") {
                Weekday::Sat
            } else {
                Weekday::Mon
            }
        },
        None => Weekday::Mon,
    }
}

/// The value of the first entry.
pub open spec fn first_value(entries: Option<Seq<EntryView>>) -> Option<Seq<char>> {
    match entries {
        Some(list) if list.len() > 0 => list[0].value,
        _ => None,
    }
}

/// The day with which weeks begin, by the settings: `week-start "sunday"`.
pub fn week_start_config(text: &str) -> (day: Weekday)
    ensures
        day == week_start_of(first_value(kdl_entries(text@, "week-start"@))),
{
    match read_entries(text, "week-start") {
        Some(entries) => {
            if entries.len() > 0 {
                assert(entry_views(entries@)[0] == entries@[0]@);
                read_week_start(entries[0].value.as_ref())
            } else {
                Weekday::Mon
            }
        },
        None => Weekday::Mon,
    }
}

} // verus!
