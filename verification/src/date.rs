//! Dates and instants of the proleptic Gregorian calendar.
//!
//! The arithmetic on them is chrono's. Here a date and an instant are plain values, and each
//! call into chrono is a function whose contract says what it does to those values, through
//! the number of a day and the number of a second.
use chrono::{Datelike, Days, FixedOffset, Local, NaiveDate, NaiveDateTime, TimeDelta};
use chrono::{TimeZone, Timelike, Utc};
use std::str::FromStr;
use vstd::prelude::*;

verus! {

/// A calendar date.
#[derive(Clone, Copy, Debug, PartialEq, Eq, Structural)]
pub struct Date {
    pub year: i32,
    pub month: u32,
    pub day: u32,
}

/// A date and a time of day, to the second.
#[derive(Clone, Copy, Debug, PartialEq, Eq, Structural)]
pub struct Moment {
    pub date: Date,
    pub hour: u32,
    pub minute: u32,
    pub second: u32,
}

/// The first year of the calendar.
pub const MIN_YEAR: i32 = -262143;

/// The last year of the calendar.
pub const MAX_YEAR: i32 = 262142;

pub open spec fn is_leap(year: int) -> bool {
    year % 4 == 0 && (year % 100 != 0 || year % 400 == 0)
}

/// The number of days of a month.
pub open spec fn month_len(year: int, month: int) -> int {
    if month == 2 {
        if is_leap(year) {
            29
        } else {
            28
        }
    } else if month == 4 || month == 6 || month == 9 || month == 11 {
        30
    } else {
        31
    }
}

/// The number of days of a year before the first of a month.
pub open spec fn days_before(year: int, month: int) -> int
    decreases month,
{
    if month <= 1 {
        0
    } else {
        days_before(year, month - 1) + month_len(year, month - 1)
    }
}

/// The number of days from the first of January of year 1, which is day 1, to the last of
/// December of the year before `year`.
pub open spec fn days_before_year(year: int) -> int {
    365 * (year - 1) + (year - 1) / 4 - (year - 1) / 100 + (year - 1) / 400
}

/// The number of a day: the first of January of year 1 is day 1, the day after it day 2.
pub open spec fn day_number(d: Date) -> int {
    days_before_year(d.year as int) + days_before(d.year as int, d.month as int) + d.day
}

/// Whether there is such a date.
pub open spec fn valid_date(d: Date) -> bool {
    &&& MIN_YEAR <= d.year <= MAX_YEAR
    &&& 1 <= d.month <= 12
    &&& 1 <= d.day <= month_len(d.year as int, d.month as int)
}

pub open spec fn min_date() -> Date {
    Date { year: MIN_YEAR, month: 1, day: 1 }
}

pub open spec fn max_date() -> Date {
    Date { year: MAX_YEAR, month: 12, day: 31 }
}

/// Whether there is such a date and time of day.
pub open spec fn valid_moment(m: Moment) -> bool {
    &&& valid_date(m.date)
    &&& m.hour < 24
    &&& m.minute < 60
    &&& m.second < 60
}

/// The number of a second.
pub open spec fn second_number(m: Moment) -> int {
    day_number(m.date) * 86400 + m.hour * 3600 + m.minute * 60 + m.second
}

/// Whether `a` is an earlier day than `b`, field by field.
pub open spec fn earlier(a: Date, b: Date) -> bool {
    ||| a.year < b.year
    ||| a.year == b.year && a.month < b.month
    ||| a.year == b.year && a.month == b.month && a.day < b.day
}

// ── Properties of day numbers ─────────────────────────────────────────────

proof fn lemma_days_before_bounds(year: int, month: int)
    requires
        1 <= month <= 12,
    ensures
        0 <= days_before(year, month),
        days_before(year, month) + month_len(year, month) <= 365 + (if is_leap(year) {
            1int
        } else {
            0
        }),
        month == 12 ==> days_before(year, month) + 31 == 365 + (if is_leap(year) {
            1int
        } else {
            0
        }),
{
    reveal_with_fuel(days_before, 13);
}

proof fn lemma_days_before_grows(year: int, m: int, n: int)
    requires
        1 <= m < n <= 12,
    ensures
        days_before(year, m) + month_len(year, m) <= days_before(year, n),
    decreases n - m,
{
    reveal_with_fuel(days_before, 2);
    if m + 1 < n {
        lemma_days_before_grows(year, m, n - 1);
    }
}

proof fn lemma_years_grow(y: int, z: int)
    requires
        y < z,
    ensures
        days_before_year(y) + 365 + (if is_leap(y) {
            1int
        } else {
            0
        }) <= days_before_year(z),
    decreases z - y,
{
    if y + 1 < z {
        lemma_years_grow(y, z - 1);
        assert(days_before_year(z - 1) <= days_before_year(z)) by {
            lemma_years_grow(z - 1, z);
        }
    }
}

/// Days are numbered in the order of their dates.
pub proof fn lemma_numbers_in_order(a: Date, b: Date)
    requires
        valid_date(a),
        valid_date(b),
    ensures
        earlier(a, b) <==> day_number(a) < day_number(b),
        a == b <==> day_number(a) == day_number(b),
{
    lemma_numbered_after(a, b);
    lemma_numbered_after(b, a);
}

proof fn lemma_numbered_after(a: Date, b: Date)
    requires
        valid_date(a),
        valid_date(b),
    ensures
        earlier(a, b) ==> day_number(a) < day_number(b),
{
    let (y, z) = (a.year as int, b.year as int);
    lemma_days_before_bounds(y, a.month as int);
    lemma_days_before_bounds(z, b.month as int);
    if y < z {
        lemma_years_grow(y, z);
    } else if y == z && a.month < b.month {
        lemma_days_before_grows(y, a.month as int, b.month as int);
    }
}

/// The numbers of the days lie between those of the first and of the last.
pub proof fn lemma_number_bounds(d: Date)
    requires
        valid_date(d),
    ensures
        day_number(min_date()) <= day_number(d) <= day_number(max_date()),
        day_number(min_date()) == -95746129,
        day_number(max_date()) == 95745399,
{
    reveal_with_fuel(days_before, 13);
    lemma_numbers_in_order(min_date(), d);
    lemma_numbers_in_order(d, max_date());
}

/// The day after a date.
pub open spec fn next_date(d: Date) -> Date {
    if d.day < month_len(d.year as int, d.month as int) {
        Date { day: (d.day + 1) as u32, ..d }
    } else if d.month < 12 {
        Date { year: d.year, month: (d.month + 1) as u32, day: 1 }
    } else {
        Date { year: (d.year + 1) as i32, month: 1, day: 1 }
    }
}

/// The day after a date has the next number; the last day of the calendar has none after it.
pub proof fn lemma_next_date(d: Date)
    requires
        valid_date(d),
    ensures
        day_number(next_date(d)) == day_number(d) + 1,
        d != max_date() ==> valid_date(next_date(d)),
{
    reveal_with_fuel(days_before, 2);
    lemma_days_before_bounds(d.year as int, d.month as int);
}

/// Instants with the same number are the same.
pub proof fn lemma_second_number_identifies(a: Moment, b: Moment)
    requires
        valid_moment(a),
        valid_moment(b),
        second_number(a) == second_number(b),
    ensures
        a == b,
{
    lemma_numbers_in_order(a.date, b.date);
    assert(day_number(a.date) == day_number(b.date));
}

// ── How dates and instants are written ────────────────────────────────────

/// A year in four digits, or with a sign and at least four digits when it is before 0 or
/// after 9999.
pub open spec fn year_text(year: int) -> Seq<char> {
    if 0 <= year <= 9999 {
        crate::text::padded(year as nat, 4)
    } else if year < 0 {
        seq!['-'] + crate::text::padded((-year) as nat, 4)
    } else {
        seq!['+'] + crate::text::padded(year as nat, 4)
    }
}

/// `2026-09-10`.
pub open spec fn date_text(d: Date) -> Seq<char> {
    year_text(d.year as int) + seq!['-'] + crate::text::padded(d.month as nat, 2) + seq!['-']
        + crate::text::padded(d.day as nat, 2)
}

/// `20260910`.
pub open spec fn compact_text(d: Date) -> Seq<char> {
    year_text(d.year as int) + crate::text::padded(d.month as nat, 2) + crate::text::padded(
        d.day as nat,
        2,
    )
}

/// `20260910T093000`.
pub open spec fn stamp_text(m: Moment) -> Seq<char> {
    compact_text(m.date) + seq!['T'] + crate::text::padded(m.hour as nat, 2)
        + crate::text::padded(m.minute as nat, 2) + crate::text::padded(m.second as nat, 2)
}

/// `+02:00`: an offset from UTC in seconds, to the nearest minute.
pub open spec fn offset_text(offset: int) -> Seq<char> {
    let size = if offset < 0 {
        -offset
    } else {
        offset
    };
    let minutes = (size + 30) / 60;
    seq![
        if offset < 0 {
            '-'
        } else {
            '+'
        },
    ] + crate::text::padded((minutes / 60) as nat, 2) + seq![':'] + crate::text::padded(
        (minutes % 60) as nat,
        2,
    )
}

/// `2026-09-10T09:30:00+02:00`.
pub open spec fn rfc3339_text(local: Moment, offset: int) -> Seq<char> {
    date_text(local.date) + seq!['T'] + crate::text::padded(local.hour as nat, 2) + seq![':']
        + crate::text::padded(local.minute as nat, 2) + seq![':'] + crate::text::padded(
        local.second as nat,
        2,
    ) + offset_text(offset)
}

/// A date with a year of four digits is written in eight digits.
pub proof fn lemma_compact(d: Date)
    requires
        valid_date(d),
        0 <= d.year <= 9999,
    ensures
        compact_text(d).len() == 8,
        crate::text::all_digits(compact_text(d)),
{
    crate::text::lemma_four_digits(d.year as nat);
    crate::text::lemma_two_digits(d.month);
    crate::text::lemma_two_digits(d.day);
    let s = compact_text(d);
    let (y, m, n) = (
        crate::text::padded(d.year as nat, 4),
        crate::text::padded(d.month as nat, 2),
        crate::text::padded(d.day as nat, 2),
    );
    assert forall|i: int| 0 <= i < s.len() implies crate::text::is_digit(#[trigger] s[i]) by {
        if i < 4 {
            assert(s[i] == y[i]);
        } else if i < 6 {
            assert(s[i] == m[i - 4]);
        } else {
            assert(s[i] == n[i - 6]);
        }
    }
}

// ── chrono ────────────────────────────────────────────────────────────────

/// `NaiveDate::from_ymd_opt`: the date with these fields, where there is one.
#[verifier::external_body]
pub(crate) fn from_ymd(year: i32, month: u32, day: u32) -> (d: Option<Date>)
    ensures
        d == (if valid_date(Date { year, month, day }) {
            Some(Date { year, month, day })
        } else {
            None
        }),
{
    NaiveDate::from_ymd_opt(year, month, day).map(
        |d| Date { year: d.year(), month: d.month(), day: d.day() },
    )
}

/// `NaiveDate::pred_opt`: the day before, unless this is the first of the calendar.
#[verifier::external_body]
pub(crate) fn day_before(d: Date) -> (r: Option<Date>)
    requires
        valid_date(d),
    ensures
        match r {
            Some(e) => valid_date(e) && day_number(e) == day_number(d) - 1,
            None => d == min_date(),
        },
{
    NaiveDate::from_ymd_opt(d.year, d.month, d.day).unwrap().pred_opt().map(
        |e| Date { year: e.year(), month: e.month(), day: e.day() },
    )
}

/// `NaiveDate::checked_add_days`: the date `n` days later, unless that is after the last day
/// of the calendar.
#[verifier::external_body]
pub(crate) fn plus_days(d: Date, n: u64) -> (r: Option<Date>)
    requires
        valid_date(d),
    ensures
        match r {
            Some(e) => valid_date(e) && day_number(e) == day_number(d) + n,
            None => day_number(d) + n > day_number(max_date()),
        },
{
    NaiveDate::from_ymd_opt(d.year, d.month, d.day).unwrap().checked_add_days(Days::new(n)).map(
        |e| Date { year: e.year(), month: e.month(), day: e.day() },
    )
}

/// `NaiveDate::checked_sub_days`: the date `n` days earlier, unless that is before the first
/// day of the calendar.
#[verifier::external_body]
pub(crate) fn minus_days(d: Date, n: u64) -> (r: Option<Date>)
    requires
        valid_date(d),
    ensures
        match r {
            Some(e) => valid_date(e) && day_number(e) == day_number(d) - n,
            None => day_number(d) - n < day_number(min_date()),
        },
{
    NaiveDate::from_ymd_opt(d.year, d.month, d.day).unwrap().checked_sub_days(Days::new(n)).map(
        |e| Date { year: e.year(), month: e.month(), day: e.day() },
    )
}

/// `Datelike::weekday` and `Weekday::num_days_from_monday`: the number of days since the last
/// Monday. Day 1, the first of January of year 1, is a Monday.
#[verifier::external_body]
pub(crate) fn days_from_monday(d: Date) -> (n: u32)
    requires
        valid_date(d),
    ensures
        n == (day_number(d) - 1) % 7,
{
    NaiveDate::from_ymd_opt(d.year, d.month, d.day).unwrap().weekday().num_days_from_monday()
}

/// The `Display` of `NaiveDate`: the date as `2026-09-10`.
#[verifier::external_body]
pub(crate) fn write_date(d: Date) -> (s: String)
    requires
        valid_date(d),
    ensures
        s@ == date_text(d),
{
    NaiveDate::from_ymd_opt(d.year, d.month, d.day).unwrap().to_string()
}

/// `NaiveDate::format` with `%Y%m%d`: the date as `20260910`.
#[verifier::external_body]
pub(crate) fn write_compact(d: Date) -> (s: String)
    requires
        valid_date(d),
    ensures
        s@ == compact_text(d),
{
    NaiveDate::from_ymd_opt(d.year, d.month, d.day).unwrap().format("%Y%m%d").to_string()
}

/// `NaiveDateTime::format` with `%Y%m%dT%H%M%S`: the instant as `20260910T093000`.
#[verifier::external_body]
pub(crate) fn write_stamp(m: Moment) -> (s: String)
    requires
        valid_moment(m),
    ensures
        s@ == stamp_text(m),
{
    let d = NaiveDate::from_ymd_opt(m.date.year, m.date.month, m.date.day).unwrap();
    d.and_hms_opt(m.hour, m.minute, m.second).unwrap().format("%Y%m%dT%H%M%S").to_string()
}

/// `DateTime::to_rfc3339` of the instant `utc` in a zone that is `offset` seconds ahead of
/// UTC: the reading of the clock there and the offset, as `2026-09-10T09:30:00+02:00`.
/// Nothing is said where that reading lies outside the calendar.
#[verifier::external_body]
pub(crate) fn write_rfc3339(utc: Moment, offset: i32) -> (s: String)
    requires
        valid_moment(utc),
        -86400 < offset < 86400,
    ensures
        forall|local: Moment| #[trigger]
            valid_moment(local) && second_number(local) == second_number(utc) + offset ==> s@
                == rfc3339_text(local, offset as int),
{
    let d = NaiveDate::from_ymd_opt(utc.date.year, utc.date.month, utc.date.day).unwrap();
    let t = d.and_hms_opt(utc.hour, utc.minute, utc.second).unwrap();
    FixedOffset::east_opt(offset).unwrap().from_utc_datetime(&t).to_rfc3339()
}

/// What chrono reads out of a text as a date in the form `2026-09-10`.
pub uninterp spec fn date_read(text: Seq<char>) -> Option<Date>;

/// `NaiveDate::from_str`. Whatever it reads is a date, and it reads what `write_date` wrote.
#[verifier::external_body]
pub(crate) fn read_date(text: &str) -> (d: Option<Date>)
    ensures
        d == date_read(text@),
        d is Some ==> valid_date(d->0),
        forall|e: Date| #[trigger] valid_date(e) && text@ == date_text(e) ==> d == Some(e),
{
    NaiveDate::from_str(text).ok().map(
        |d| Date { year: d.year(), month: d.month(), day: d.day() },
    )
}

/// What chrono reads out of a text as a date in the given form.
pub uninterp spec fn date_read_as(text: Seq<char>, form: Seq<char>) -> Option<Date>;

/// `NaiveDate::parse_from_str`. Whatever it reads is a date, and in the form `%Y%m%d` it reads
/// what `write_compact` wrote of a date with a year of four digits.
#[verifier::external_body]
pub(crate) fn read_date_as(text: &str, form: &str) -> (d: Option<Date>)
    ensures
        d == date_read_as(text@, form@),
        d is Some ==> valid_date(d->0),
        forall|e: Date| #[trigger]
            valid_date(e) && 0 <= e.year <= 9999 && form@ == "%Y%m%d"@ && text@ == compact_text(e)
                ==> d == Some(e),
{
    NaiveDate::parse_from_str(text, form).ok().map(
        |d| Date { year: d.year(), month: d.month(), day: d.day() },
    )
}

/// What chrono reads out of a text as an instant in the given form; a leap second reads as
/// the second before it.
pub uninterp spec fn moment_read_as(text: Seq<char>, form: Seq<char>) -> Option<Moment>;

/// `NaiveDateTime::parse_from_str`. Whatever it reads is an instant, and in the form
/// `%Y%m%dT%H%M%S` it reads what `write_stamp` wrote of one with a year of four digits.
#[verifier::external_body]
pub(crate) fn read_moment_as(text: &str, form: &str) -> (m: Option<Moment>)
    ensures
        m == moment_read_as(text@, form@),
        m is Some ==> valid_moment(m->0),
        forall|e: Moment| #[trigger]
            valid_moment(e) && 0 <= e.date.year <= 9999 && form@ == "%Y%m%dT%H%M%S"@ && text@
                == stamp_text(e) ==> m == Some(e),
{
    NaiveDateTime::parse_from_str(text, form).ok().map(
        |t|
            Moment {
                date: Date { year: t.year(), month: t.month(), day: t.day() },
                hour: t.hour(),
                minute: t.minute(),
                second: t.second(),
            },
    )
}

/// The instant in UTC that chrono reads out of an RFC 3339 text.
pub uninterp spec fn rfc3339_read(text: Seq<char>) -> Option<Moment>;

/// `DateTime::parse_from_rfc3339`, in UTC. Whatever it reads is an instant.
#[verifier::external_body]
pub(crate) fn read_rfc3339(text: &str) -> (m: Option<Moment>)
    ensures
        m == rfc3339_read(text@),
        m is Some ==> valid_moment(m->0),
{
    chrono::DateTime::parse_from_rfc3339(text).ok().map(|t| t.naive_utc()).map(
        |t|
            Moment {
                date: Date { year: t.year(), month: t.month(), day: t.day() },
                hour: t.hour(),
                minute: t.minute(),
                second: t.second(),
            },
    )
}

/// `NaiveDateTime::checked_add_signed`: the instant `seconds` later, or earlier for a negative
/// number, unless that is outside the calendar.
#[verifier::external_body]
pub(crate) fn plus_seconds(m: Moment, seconds: i32) -> (r: Option<Moment>)
    requires
        valid_moment(m),
    ensures
        match r {
            Some(e) => valid_moment(e) && second_number(e) == second_number(m) + seconds,
            None => second_number(m) + seconds < day_number(min_date()) * 86400
                || second_number(m) + seconds >= (day_number(max_date()) + 1) * 86400,
        },
{
    let d = NaiveDate::from_ymd_opt(m.date.year, m.date.month, m.date.day).unwrap();
    let t = d.and_hms_opt(m.hour, m.minute, m.second).unwrap();
    t.checked_add_signed(TimeDelta::seconds(i64::from(seconds))).map(
        |t|
            Moment {
                date: Date { year: t.year(), month: t.month(), day: t.day() },
                hour: t.hour(),
                minute: t.minute(),
                second: t.second(),
            },
    )
}

/// The instant in UTC at which the clocks of a zone of the time zone database show a reading,
/// the one chrono puts first where there are two: none where the database has no such zone, or
/// its clocks skip the reading.
pub uninterp spec fn zone_instant(zone: Seq<char>, local: Moment) -> Option<Moment>;

/// `chrono_tz::Tz::from_str` and, in that zone, `TimeZone::from_local_datetime` and
/// `earliest`. Whatever comes back is an instant.
#[verifier::external_body]
pub(crate) fn instant_in_zone(zone: &str, local: Moment) -> (m: Option<Moment>)
    requires
        valid_moment(local),
    ensures
        m == zone_instant(zone@, local),
        m is Some ==> valid_moment(m->0),
{
    let d = NaiveDate::from_ymd_opt(local.date.year, local.date.month, local.date.day).unwrap();
    let t = d.and_hms_opt(local.hour, local.minute, local.second).unwrap();
    let zone = chrono_tz::Tz::from_str(zone).ok()?;
    let t = zone.from_local_datetime(&t).earliest()?.naive_utc();
    Some(Moment {
        date: Date { year: t.year(), month: t.month(), day: t.day() },
        hour: t.hour(),
        minute: t.minute(),
        second: t.second(),
    })
}

/// `TimeZone::offset_from_utc_datetime` of `Local`: how many seconds the clocks of this machine
/// are ahead of UTC at an instant. The machine's time zone decides; it is less than a day.
#[verifier::external_body]
pub(crate) fn local_offset(utc: Moment) -> (offset: i32)
    requires
        valid_moment(utc),
    ensures
        -86400 < offset < 86400,
{
    let d = NaiveDate::from_ymd_opt(utc.date.year, utc.date.month, utc.date.day).unwrap();
    let t = d.and_hms_opt(utc.hour, utc.minute, utc.second).unwrap();
    Local.offset_from_utc_datetime(&t).local_minus_utc()
}

/// `TimeZone::from_local_datetime` of `Local` and `earliest`: an instant in UTC at which the
/// clocks of this machine show a reading, with the number of seconds by which they are then
/// ahead. The machine's time zone decides, also whether there is such an instant.
#[verifier::external_body]
pub(crate) fn local_instant(local: Moment) -> (r: Option<(Moment, i32)>)
    requires
        valid_moment(local),
    ensures
        r matches Some((utc, offset)) ==> {
            &&& valid_moment(utc)
            &&& -86400 < offset < 86400
            &&& second_number(utc) == second_number(local) - offset
        },
{
    let d = NaiveDate::from_ymd_opt(local.date.year, local.date.month, local.date.day).unwrap();
    let t = d.and_hms_opt(local.hour, local.minute, local.second).unwrap();
    let found = Local.from_local_datetime(&t).earliest()?;
    let t = found.naive_utc();
    let date = Date { year: t.year(), month: t.month(), day: t.day() };
    let utc = Moment { date, hour: t.hour(), minute: t.minute(), second: t.second() };
    Some((utc, found.offset().local_minus_utc()))
}

/// `Utc::now`: the time it is, in UTC. The clock decides.
#[verifier::external_body]
pub(crate) fn utc_now() -> (m: Moment)
    ensures
        valid_moment(m),
{
    let t = Utc::now().naive_utc();
    Moment {
        date: Date { year: t.year(), month: t.month(), day: t.day() },
        hour: t.hour(),
        minute: t.minute(),
        second: t.second(),
    }
}

// ── Comparing ─────────────────────────────────────────────────────────────

/// Whether `a` is an earlier day than `b`.
pub fn is_earlier(a: Date, b: Date) -> (r: bool)
    ensures
        r == earlier(a, b),
{
    a.year < b.year || (a.year == b.year && (a.month < b.month || (a.month == b.month && a.day
        < b.day)))
}

} // verus!
