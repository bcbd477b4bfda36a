//! Months, weeks and the grid of a month.
use vstd::prelude::*;

use crate::config::Weekday;
use crate::date::{day_before, days_from_monday, from_ymd, minus_days, plus_days, Date};

verus! {

/// The number of days of the grid: six weeks.
pub const GRID_DAYS: u64 = 42;

// ── Months ────────────────────────────────────────────────────────────────

/// The number of a month: the first of year 0 is month 0.
pub open spec fn month_number(year: int, month: int) -> int {
    year * 12 + month - 1
}

/// Whether the numbers on the way from a month to one `delta` later fit.
pub open spec fn months_fit(year: int, month: int, delta: int) -> bool {
    &&& i32::MIN <= year * 12 <= i32::MAX
    &&& month <= i32::MAX
    &&& i32::MIN <= year * 12 + month <= i32::MAX
    &&& i32::MIN <= month_number(year, month) <= i32::MAX
    &&& i32::MIN <= month_number(year, month) + delta <= i32::MAX
}

/// The month `delta` months later, or earlier for a negative number.
pub open spec fn month_plus(year: int, month: int, delta: int) -> (int, int) {
    let n = month_number(year, month) + delta;
    (n / 12, n % 12 + 1)
}

/// The month `delta` months later, or earlier for a negative number.
pub fn add_months(year: i32, month: u32, delta: i32) -> (r: (i32, u32))
    requires
        months_fit(year as int, month as int, delta as int),
    ensures
        (r.0 as int, r.1 as int) == month_plus(year as int, month as int, delta as int),
        1 <= r.1 <= 12,
{
    let n: i32 = year * 12 + month as i32 - 1 + delta;
    let rest: i32 = n % 12;
    if rest < 0 {
        let year: i32 = n / 12 - 1;
        let month: u32 = (rest + 13) as u32;
        (year, month)
    } else {
        let year: i32 = n / 12;
        let month: u32 = (rest + 1) as u32;
        (year, month)
    }
}

/// Whether the numbers suffice to move on from the month that is shown, and to see how long the
/// month there is.
pub open spec fn can_move(view: (i32, u32), delta: int) -> bool {
    let there = month_plus(view.0 as int, view.1 as int, delta);
    &&& months_fit(view.0 as int, view.1 as int, delta)
    &&& months_fit(there.0, there.1, 1)
}

/// Whether the numbers suffice to move on from the month that is shown.
pub fn can_shift(view: (i32, u32), delta: i32) -> (r: bool)
    requires
        1 <= view.1 <= 12,
    ensures
        r == can_move(view, delta as int),
{
    let year: i64 = view.0 as i64 * 12;
    let month: i64 = year + view.1 as i64;
    let there: i64 = month - 1 + delta as i64;
    let min: i64 = i32::MIN as i64;
    let max: i64 = i32::MAX as i64;
    let rest: i64 = there % 12;
    let first: i64 = if rest < 0 {
        there - rest - 12
    } else {
        there - rest
    };
    min <= year && year <= max && month <= max && min <= month - 1 && min <= there && there < max
        && min <= first
}

/// Going months ahead and then back leads to the month it began with.
pub proof fn law_months_lead_back(year: int, month: int, delta: int)
    requires
        1 <= month <= 12,
    ensures
        ({
            let there = month_plus(year, month, delta);
            month_plus(there.0, there.1, -delta) == (year, month)
        }),
{
}

/// The number of days of a month as the grid has it: that of the calendar, and 28 where the
/// month after it is not in the calendar.
pub open spec fn month_days(year: int, month: int) -> int {
    let next = month_plus(year, month, 1);
    if crate::date::MIN_YEAR <= next.0 <= crate::date::MAX_YEAR && crate::date::MIN_YEAR <= year {
        crate::date::month_len(year, month)
    } else {
        28
    }
}

/// The number of days of a month.
pub fn days_in_month(year: i32, month: u32) -> (n: u32)
    requires
        1 <= month <= 12,
        months_fit(year as int, month as int, 1),
    ensures
        n == month_days(year as int, month as int),
        1 <= n <= 31,
{
    let (ny, nm) = add_months(year, month, 1);
    let first = match from_ymd(ny, nm, 1) {
        Some(d) => d,
        None => return 28,
    };
    let ghost len = crate::date::month_len(year as int, month as int);
    let ghost last = Date { year, month, day: len as u32 };
    match day_before(first) {
        Some(d) => {
            proof {
                if crate::date::MIN_YEAR <= year {
                    assert(crate::date::valid_date(last));
                    crate::date::lemma_next_date(last);
                    assert(crate::date::next_date(last) == first);
                    crate::date::lemma_numbers_in_order(d, last);
                } else {
                    assert(first == crate::date::min_date());
                    crate::date::lemma_number_bounds(d);
                }
            }
            d.day
        },
        None => {
            assert(year < crate::date::MIN_YEAR);
            28
        },
    }
}

// ── Weeks ─────────────────────────────────────────────────────────────────

/// How many days a day of the week is after Monday.
pub open spec fn from_monday(day: Weekday) -> int {
    match day {
        Weekday::Mon => 0,
        Weekday::Tue => 1,
        Weekday::Wed => 2,
        Weekday::Thu => 3,
        Weekday::Fri => 4,
        Weekday::Sat => 5,
        Weekday::Sun => 6,
    }
}

pub fn num_days_from_monday(day: Weekday) -> (n: u32)
    ensures
        n == from_monday(day),
        n < 7,
{
    match day {
        Weekday::Mon => 0,
        Weekday::Tue => 1,
        Weekday::Wed => 2,
        Weekday::Thu => 3,
        Weekday::Fri => 4,
        Weekday::Sat => 5,
        Weekday::Sun => 6,
    }
}

/// The day of the week of a date, as the number of days after Monday.
pub open spec fn weekday_of(d: Date) -> int {
    (crate::date::day_number(d) - 1) % 7
}

/// How many days a day is into a week that begins with another; both as the number of days
/// after Monday.
pub open spec fn into_week(day: int, week_start: int) -> int {
    (day + 7 - week_start) % 7
}

/// How many days a day is into a week that begins with another.
pub fn weekday_offset(day: Weekday, week_start: Weekday) -> (n: u32)
    ensures
        n == into_week(from_monday(day), from_monday(week_start)),
        n < 7,
{
    (num_days_from_monday(day) + 7 - num_days_from_monday(week_start)) % 7
}

/// The day of the week of a date.
pub fn weekday(d: Date) -> (day: Weekday)
    requires
        crate::date::valid_date(d),
    ensures
        from_monday(day) == weekday_of(d),
{
    let n = days_from_monday(d);
    if n == 0 {
        Weekday::Mon
    } else if n == 1 {
        Weekday::Tue
    } else if n == 2 {
        Weekday::Wed
    } else if n == 3 {
        Weekday::Thu
    } else if n == 4 {
        Weekday::Fri
    } else if n == 5 {
        Weekday::Sat
    } else {
        Weekday::Sun
    }
}

// ── The grid ──────────────────────────────────────────────────────────────

/// The first of the month that is shown, or today where it is not in the calendar.
pub open spec fn grid_month(view: (i32, u32), today: Date) -> Date {
    let first = Date { year: view.0, month: view.1, day: 1 };
    if crate::date::valid_date(first) {
        first
    } else {
        today
    }
}

/// The number of the first day of the grid: the last beginning of a week up to the first of
/// the month, or the first of the month where that is before the calendar.
pub open spec fn grid_start(view: (i32, u32), today: Date, week_start: Weekday) -> int {
    let first = grid_month(view, today);
    let n = crate::date::day_number(first) - into_week(weekday_of(first), from_monday(week_start));
    if n < crate::date::day_number(crate::date::min_date()) {
        crate::date::day_number(first)
    } else {
        n
    }
}

/// The first day of the grid.
pub fn first_day(view: (i32, u32), today: Date, week_start: Weekday) -> (d: Date)
    requires
        crate::date::valid_date(today),
    ensures
        crate::date::valid_date(d),
        crate::date::day_number(d) == grid_start(view, today, week_start),
{
    let first = match from_ymd(view.0, view.1, 1) {
        Some(d) => d,
        None => today,
    };
    let back = weekday_offset(weekday(first), week_start);
    match minus_days(first, back as u64) {
        Some(d) => {
            proof {
                crate::date::lemma_number_bounds(d);
            }
            d
        },
        None => first,
    }
}

/// The grid of a month begins with the first day of a week and holds all of the month, unless
/// that week begins before the calendar.
pub proof fn law_grid_holds_the_month(
    view: (i32, u32),
    today: Date,
    week_start: Weekday,
    d: Date,
)
    requires
        crate::date::valid_date(d),
        d.year == view.0,
        d.month == view.1,
        crate::date::valid_date(today),
        crate::date::day_number(Date { year: view.0, month: view.1, day: 1 }) - 6
            >= crate::date::day_number(crate::date::min_date()),
    ensures
        ({
            let start = grid_start(view, today, week_start);
            &&& (start - 1) % 7 == from_monday(week_start)
            &&& start <= crate::date::day_number(d) < start + GRID_DAYS
        }),
{
    let first = Date { year: view.0, month: view.1, day: 1 };
    assert(crate::date::valid_date(first));
    let (w, s) = (weekday_of(first), from_monday(week_start));
    assert(crate::date::day_number(d) == crate::date::day_number(first) + d.day - 1);
}

/// The day of the grid at a column and a row, those beyond the last taken as the last.
pub fn day_at(first: Date, col: u64, row: u64) -> (d: Option<Date>)
    requires
        crate::date::valid_date(first),
    ensures
        ({
            let n = crate::date::day_number(first) + (if row < 5 {
                row as int
            } else {
                5
            }) * 7 + (if col < 6 {
                col as int
            } else {
                6
            });
            match d {
                Some(d) => crate::date::valid_date(d) && crate::date::day_number(d) == n,
                None => n > crate::date::day_number(crate::date::max_date()),
            }
        }),
{
    let row: u64 = if row < 5 {
        row
    } else {
        5
    };
    let col: u64 = if col < 6 {
        col
    } else {
        6
    };
    plus_days(first, row * 7 + col)
}

/// The day of the grid at a place, counted row by row.
pub fn grid_day(first: Date, i: u64) -> (d: Option<Date>)
    requires
        crate::date::valid_date(first),
    ensures
        match d {
            Some(d) => crate::date::valid_date(d) && crate::date::day_number(d)
                == crate::date::day_number(first) + i,
            None => crate::date::day_number(first) + i > crate::date::day_number(
                crate::date::max_date(),
            ),
        },
{
    plus_days(first, i)
}

} // verus!
