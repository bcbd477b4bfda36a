# cce-calendar

A month-view calendar with per-day events, and a two-way sync between its file and the calendars
of iCloud (CalDAV) and Google (Calendar API). The logic of both programs is a library that Verus
verifies; the programs around it are ordinary Rust.

- `src/` is the library. `record`, `uid_map` and `order` hold the file of the events and the
  state of the sync; `date` and `when` the calendar dates and instants; `ics`, `vevent` and
  `mirror` the iCalendar format, in both directions; `caldav`, `google`, `xml`, `json`, `url` and
  `http` what is asked of the servers and what their replies mean; `sync`, `push` and `run` the
  three-way merge and the passes; `agenda`, `month`, `calendar` and `display` the window. The
  modules whose names end in `_laws` hold what is proved of several functions together.
- `tests/` runs the library on values.
- `app/` holds the programs: files, network and window.

## Sync

Each pass replaces the records of an account with what the server has in a window of days around
today; events that repeat come expanded and are never written. What was typed, changed or deleted
in the calendar since the last pass is told by comparing the file with the state of that pass, and
is pushed. A change made here wins over one made there at the same time. A whole-day event of
several days is several records, which cannot be edited as one thing: it is mirrored read-only,
and deleted only when none of its records is left. A missing file is imported anew, never read as
a deletion of everything, and a pass that would delete more than five events and more than half of
those known refuses without `--force-deletes`.

    cce-calendar-sync [--dry-run] [--force-deletes]

## Settings

`~/.config/cce/cce-calendar/config.kdl`:

    week-start "sunday"
    push-to "icloud" calendar="Home"

`push-to` names the account kind on which typed events are created, `icloud`, `google` or `none`,
and perhaps a calendar. Without it they go to iCloud if there is such an account, else to Google.
