//! What the window says.
use vstd::prelude::*;

use crate::agenda::Event;
use crate::calendar::Calendar;
use crate::config::Weekday;
use crate::date::Date;
use crate::mirror::write_clock;
use crate::month::{first_day, grid_day, num_days_from_monday, weekday};
use crate::text::to_decimal;

verus! {

// ── Names ─────────────────────────────────────────────────────────────────

/// The name of a month.
pub open spec fn month_name(month: int) -> Seq<char> {
    if month == 1 {
        "January"@
    } else if month == 2 {
        "February"@
    } else if month == 3 {
        "March"@
    } else if month == 4 {
        "April"@
    } else if month == 5 {
        "May"@
    } else if month == 6 {
        "June"@
    } else if month == 7 {
        "July"@
    } else if month == 8 {
        "August"@
    } else if month == 9 {
        "September"@
    } else if month == 10 {
        "October"@
    } else if month == 11 {
        "November"@
    } else {
        "December"@
    }
}

pub fn name_of_month(month: u32) -> (s: &'static str)
    requires
        1 <= month <= 12,
    ensures
        s@ == month_name(month as int),
{
    if month == 1 {
        "January"
    } else if month == 2 {
        "February"
    } else if month == 3 {
        "March"
    } else if month == 4 {
        "April"
    } else if month == 5 {
        "May"
    } else if month == 6 {
        "June"
    } else if month == 7 {
        "July"
    } else if month == 8 {
        "August"
    } else if month == 9 {
        "September"
    } else if month == 10 {
        "October"
    } else if month == 11 {
        "November"
    } else {
        "December"
    }
}

/// The short name of the day that is so many days after Monday.
pub open spec fn weekday_name(n: int) -> Seq<char> {
    if n == 0 {
        "Mon"@
    } else if n == 1 {
        "Tue"@
    } else if n == 2 {
        "Wed"@
    } else if n == 3 {
        "Thu"@
    } else if n == 4 {
        "Fri"@
    } else if n == 5 {
        "Sat"@
    } else {
        "Sun"@
    }
}

pub fn name_of_weekday(n: u32) -> (s: &'static str)
    ensures
        s@ == weekday_name(n as int),
{
    if n == 0 {
        "Mon"
    } else if n == 1 {
        "Tue"
    } else if n == 2 {
        "Wed"
    } else if n == 3 {
        "Thu"
    } else if n == 4 {
        "Fri"
    } else if n == 5 {
        "Sat"
    } else {
        "Sun"
    }
}

/// The name of the day at the head of a column of the grid.
pub fn column_name(week_start: Weekday, column: u32) -> (s: &'static str)
    requires
        column < 7,
    ensures
        s@ == weekday_name((crate::month::from_monday(week_start) + column) % 7),
{
    name_of_weekday((num_days_from_monday(week_start) + column) % 7)
}

/// A number in decimal, with a sign where it is negative.
pub open spec fn signed_text(n: int) -> Seq<char> {
    if n < 0 {
        "-"@ + crate::text::decimal((-n) as nat)
    } else {
        crate::text::decimal(n as nat)
    }
}

fn write_signed(n: i32) -> (s: String)
    ensures
        s@ == signed_text(n as int),
{
    if n < 0 {
        let mut s = "-".to_owned();
        let size: i64 = -(n as i64);
        s.append(to_decimal(size as u64).as_str());
        s
    } else {
        to_decimal(n as u64)
    }
}

/// The title of the window: the month and the year that are shown.
pub fn month_label(view: (i32, u32)) -> (s: String)
    requires
        1 <= view.1 <= 12,
    ensures
        s@ == month_name(view.1 as int) + " "@ + signed_text(view.0 as int),
{
    let mut s = name_of_month(view.1).to_owned();
    s.append(" ");
    s.append(write_signed(view.0).as_str());
    s
}

/// The heading of a day, as `Thu, September 10`.
pub fn day_heading(d: Date) -> (s: String)
    requires
        crate::date::valid_date(d),
    ensures
        s@ == weekday_name(crate::month::weekday_of(d)) + ", "@ + month_name(d.month as int) + " "@
            + crate::text::decimal(d.day as nat),
{
    let mut s = name_of_weekday(num_days_from_monday(weekday(d))).to_owned();
    s.append(", ");
    s.append(name_of_month(d.month));
    s.append(" ");
    s.append(to_decimal(d.day as u64).as_str());
    s
}

// ── The grid ──────────────────────────────────────────────────────────────

/// A cell of the grid.
#[derive(Clone, Copy, Debug)]
pub struct Cell {
    pub row: u64,
    pub col: u64,
    pub date: Date,
    /// Whether the day is of the month that is shown.
    pub in_month: bool,
    pub is_selected: bool,
    pub is_today: bool,
}

/// Whether a cell is the one at a place of the grid of a window, counted row by row.
pub open spec fn is_cell(c: crate::calendar::CalendarView, i: int, cell: Cell) -> bool {
    &&& cell.row == i / 7
    &&& cell.col == i % 7
    &&& crate::date::valid_date(cell.date)
    &&& crate::date::day_number(cell.date) == crate::month::grid_start(
        c.view,
        c.today,
        c.week_start,
    ) + i
    &&& cell.in_month == ((cell.date.year, cell.date.month) == c.view)
    &&& cell.is_selected == (cell.date == c.selected)
    &&& cell.is_today == (cell.date == c.today)
}

/// How many cells the grid of a window has: six weeks of them, unless the calendar ends before.
pub open spec fn cell_count(c: crate::calendar::CalendarView) -> int {
    let rest = crate::date::day_number(crate::date::max_date()) - crate::month::grid_start(
        c.view,
        c.today,
        c.week_start,
    ) + 1;
    if rest < crate::month::GRID_DAYS {
        rest
    } else {
        crate::month::GRID_DAYS as int
    }
}

/// The cells of the grid of a window, row by row.
pub fn grid_cells(c: &Calendar) -> (cells: Vec<Cell>)
    requires
        c.wf(),
    ensures
        cells@.len() == cell_count(c@),
        forall|i: int| 0 <= i < cells@.len() ==> is_cell(c@, i, #[trigger] cells@[i]),
{
    let first = first_day(c.view, c.today, c.week_start);
    let mut cells: Vec<Cell> = Vec::new();
    let mut i: u64 = 0;
    proof {
        crate::date::lemma_number_bounds(first);
    }
    while i < crate::month::GRID_DAYS
        invariant
            c.wf(),
            crate::date::valid_date(first),
            crate::date::day_number(first) == crate::month::grid_start(
                c@.view,
                c@.today,
                c@.week_start,
            ),
            i <= crate::month::GRID_DAYS,
            cells@.len() == if i < cell_count(c@) {
                i as int
            } else {
                cell_count(c@)
            },
            cell_count(c@) >= 1,
            forall|k: int| 0 <= k < cells@.len() ==> is_cell(c@, k, #[trigger] cells@[k]),
        decreases crate::month::GRID_DAYS - i,
    {
        if let Some(date) = grid_day(first, i) {
            proof {
                crate::date::lemma_number_bounds(date);
            }
            let cell = Cell {
                row: i / 7,
                col: i % 7,
                date,
                in_month: date.year == c.view.0 && date.month == c.view.1,
                is_selected: date == c.selected,
                is_today: date == c.today,
            };
            assert(is_cell(c@, i as int, cell));
            cells.push(cell);
        }
        i = i + 1;
    }
    cells
}

/// How many events of a day have a line of their own, where there are `lines` lines: all of
/// them, or all but the last line.
pub open spec fn shown_count(lines: int, events: int) -> int {
    if lines >= events {
        events
    } else if lines > 0 {
        lines - 1
    } else {
        0
    }
}

pub fn count_shown(lines: usize, events: usize) -> (n: usize)
    ensures
        n == shown_count(lines as int, events as int),
        n <= events,
{
    if lines >= events {
        events
    } else if lines > 0 {
        lines - 1
    } else {
        0
    }
}

/// What the last line says where not all events have one of their own.
pub fn more_label(events: usize, shown: usize) -> (s: Option<String>)
    ensures
        match s {
            Some(s) => events > shown && s@ == "+"@ + crate::text::decimal(
                (events - shown) as nat,
            ) + " more"@,
            None => events <= shown,
        },
{
    if events > shown {
        let mut s = "+".to_owned();
        s.append(to_decimal((events - shown) as u64).as_str());
        s.append(" more");
        Some(s)
    } else {
        None
    }
}

/// The lines of a day in the grid never take more than there are.
pub proof fn law_lines_suffice(lines: int, events: int)
    requires
        lines > 0,
        events >= 0,
    ensures
        ({
            let shown = shown_count(lines, events);
            shown + (if events > shown {
                1int
            } else {
                0
            }) <= lines
        }),
{
}

// ── The list ──────────────────────────────────────────────────────────────

/// When an event is, in the list of its day.
pub fn time_label(e: &Event) -> (s: String)
    ensures
        s@ == match e@.time {
            Some((h, m)) => crate::mirror::clock_text(h, m),
            None => "——"@,
        },
{
    match e.time {
        Some((h, m)) => write_clock(h, m),
        None => "——".to_owned(),
    }
}

/// What the line for typing says: what has been typed with a mark behind it, or how an event is
/// typed.
pub fn input_label(buffer: &str) -> (s: String)
    ensures
        s@ == if buffer@.len() == 0 {
            "HH:MM title"@
        } else {
            buffer@ + "▏"@
        },
{
    if buffer.is_empty() {
        "HH:MM title".to_owned()
    } else {
        let mut s = buffer.to_owned();
        s.append("▏");
        s
    }
}

/// What the line at the bottom says while nothing is being typed: what went wrong, or which
/// keys there are.
pub open spec fn hint_text(c: crate::calendar::CalendarView) -> Seq<char> {
    match c.status {
        Some(error) => error,
        None => if c.sel_event is Some {
            "d delete · n new · t today"@
        } else {
            "n new · t today · pgup/pgdn month"@
        },
    }
}

pub fn hint(c: &Calendar) -> (s: String)
    ensures
        s@ == hint_text(c@),
{
    match &c.status {
        Some(error) => error.clone(),
        None => {
            if c.sel_event.is_some() {
                "d delete · n new · t today".to_owned()
            } else {
                "n new · t today · pgup/pgdn month".to_owned()
            }
        },
    }
}

} // verus!
