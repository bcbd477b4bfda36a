//! iCalendar text: content lines, escaping, and the few properties that a mirror needs.
use vstd::prelude::*;

use crate::date::{read_date_as, read_moment_as, Date, Moment};
use crate::text::{byte_len, eq_ignore_case, piece, split, split_once, text_eq, to_chars, to_upper};
use crate::text::{trim, trim_char};

verus! {

// ── Content lines ─────────────────────────────────────────────────────────

/// A line as it stands between line feeds, without the carriage return before the feed.
pub open spec fn without_return(s: Seq<char>) -> Seq<char> {
    if s.len() > 0 && s.last() == '\r' {
        s.drop_last()
    } else {
        s
    }
}

/// Whether a line continues the one before it.
pub open spec fn is_continuation(s: Seq<char>) -> bool {
    s.len() > 0 && (s[0] == ' ' || s[0] == '\t')
}

/// The logical lines of a list of physical lines: one that starts with a space or a tab
/// continues the line before it, without that character.
pub open spec fn join_lines(raw: Seq<Seq<char>>) -> Seq<Seq<char>>
    decreases raw.len(),
{
    if raw.len() == 0 {
        Seq::empty()
    } else {
        let before = join_lines(raw.drop_last());
        let line = without_return(raw.last());
        if is_continuation(line) && before.len() > 0 {
            before.drop_last().push(before.last() + line.drop_first())
        } else {
            before.push(line)
        }
    }
}

pub open spec fn nonempty() -> spec_fn(Seq<char>) -> bool {
    |l: Seq<char>| l.len() > 0
}

/// The logical lines of a text that are not empty.
pub open spec fn logical_lines(text: Seq<char>) -> Seq<Seq<char>> {
    join_lines(crate::text::split_on(text, '\n')).filter(nonempty())
}

/// Unfolds the lines of an iCalendar text: a line break followed by a space or a tab
/// continues the previous line. Empty lines are left out.
pub fn unfold(ics: &str) -> (lines: Vec<String>)
    ensures
        crate::text::texts(lines@) == logical_lines(ics@),
{
    let raw = split(ics, '\n');
    let ghost raws = crate::text::texts(raw@);
    let mut lines: Vec<String> = Vec::new();
    let mut i: usize = 0;
    assert(raws.take(0) =~= Seq::<Seq<char>>::empty());
    while i < raw.len()
        invariant
            raws == crate::text::texts(raw@),
            i <= raw@.len(),
            crate::text::texts(lines@) == join_lines(raws.take(i as int)),
        decreases raw@.len() - i,
    {
        assert(raws.take(i + 1).drop_last() =~= raws.take(i as int));
        assert(raws.take(i + 1).last() == raws[i as int]);
        let ghost before = crate::text::texts(lines@);
        let chars = to_chars(raw[i].as_str());
        let end: usize = if chars.len() > 0 && chars[chars.len() - 1] == '\r' {
            chars.len() - 1
        } else {
            chars.len()
        };
        let ghost line = without_return(raws[i as int]);
        assert(line =~= chars@.take(end as int));
        if end > 0 && (chars[0] == ' ' || chars[0] == '\t') && lines.len() > 0 {
            let rest = piece(&chars, 1, end);
            assert(rest@ =~= line.drop_first());
            match lines.pop() {
                Some(mut last) => {
                    assert(last@ == before.last());
                    last.append(rest.as_str());
                    lines.push(last);
                    assert(crate::text::texts(lines@) =~= before.drop_last().push(
                        before.last() + line.drop_first(),
                    ));
                },
                None => {},
            }
        } else {
            lines.push(piece(&chars, 0, end));
            assert(crate::text::texts(lines@) =~= before.push(line));
        }
        i = i + 1;
    }
    assert(raws.take(i as int) =~= raws);
    keep_nonempty(lines)
}

/// The lines that are not empty.
fn keep_nonempty(lines: Vec<String>) -> (kept: Vec<String>)
    ensures
        crate::text::texts(kept@) == crate::text::texts(lines@).filter(nonempty()),
{
    let ghost all = crate::text::texts(lines@);
    let mut kept: Vec<String> = Vec::new();
    let mut i: usize = 0;
    assert(all.take(0).filter(nonempty()) =~= Seq::empty()) by {
        reveal(Seq::filter);
    }
    while i < lines.len()
        invariant
            all == crate::text::texts(lines@),
            i <= lines@.len(),
            crate::text::texts(kept@) == all.take(i as int).filter(nonempty()),
        decreases lines@.len() - i,
    {
        reveal(Seq::filter);
        assert(all.take(i + 1).drop_last() =~= all.take(i as int));
        let ghost before = crate::text::texts(kept@);
        if !lines[i].as_str().is_empty() {
            kept.push(lines[i].clone());
            assert(crate::text::texts(kept@) =~= before.push(all[i as int]));
        }
        i = i + 1;
    }
    assert(all.take(i as int) =~= all);
    kept
}

/// The place of the first colon outside double quotes, or the length of the line when there
/// is none. `quoted` says whether the line starts inside quotes.
pub open spec fn colon(s: Seq<char>, quoted: bool) -> int
    decreases s.len(),
{
    if s.len() == 0 || (s[0] == ':' && !quoted) {
        0
    } else {
        1 + colon(s.drop_first(), quoted != (s[0] == '"'))
    }
}

/// Whether a line is a content line, a name and a value with a colon between them.
pub open spec fn is_content_line(s: Seq<char>) -> bool {
    colon(s, false) < s.len()
}

/// The name and the parameters of a content line: what stands before the colon.
pub open spec fn line_head(s: Seq<char>) -> Seq<char> {
    s.take(colon(s, false))
}

/// The value of a content line: what stands behind the colon.
pub open spec fn line_value(s: Seq<char>) -> Seq<char> {
    s.skip(colon(s, false) + 1)
}

/// Splits a content line at the first colon outside double quotes.
pub fn split_content_line(line: &str) -> (parts: Option<(&str, &str)>)
    ensures
        match parts {
            Some((head, value)) => {
                &&& is_content_line(line@)
                &&& head@ == line_head(line@)
                &&& value@ == line_value(line@)
            },
            None => !is_content_line(line@),
        },
{
    let chars = to_chars(line);
    let mut in_quotes = false;
    let mut i: usize = 0;
    assert(line@.skip(0) =~= line@);
    while i < chars.len()
        invariant
            chars@ == line@,
            i <= chars@.len(),
            colon(line@, false) == i + colon(line@.skip(i as int), in_quotes),
        decreases chars@.len() - i,
    {
        let c = chars[i];
        assert(line@.skip(i as int).drop_first() =~= line@.skip(i + 1));
        if c == ':' && !in_quotes {
            return Some((line.substring_char(0, i), line.substring_char(i + 1, chars.len())));
        }
        if c == '"' {
            in_quotes = !in_quotes;
        }
        i = i + 1;
    }
    None
}

/// The name that starts a head, in upper case: what stands before the first semicolon.
pub open spec fn head_name(head: Seq<char>) -> Seq<char> {
    crate::text::upper(head.take(crate::text::find(head, ';')))
}

/// The name of a content line in upper case; empty for any other line.
pub open spec fn line_name(line: Seq<char>) -> Seq<char> {
    if is_content_line(line) {
        head_name(line_head(line))
    } else {
        Seq::empty()
    }
}

/// The name that starts a head, in upper case.
fn name_of_head(head: &str) -> (name: String)
    ensures
        name@ == head_name(head@),
{
    proof {
        crate::text::lemma_find(head@, ';');
        assert(head@.take(head@.len() as int) =~= head@);
    }
    match split_once(head, ';') {
        Some((name, _)) => to_upper(name),
        None => to_upper(head),
    }
}

/// The name of a content line in upper case; empty for any other line.
pub fn prop_name(line: &str) -> (name: String)
    ensures
        name@ == line_name(line@),
{
    match split_content_line(line) {
        Some((head, _)) => name_of_head(head),
        None => String::new(),
    }
}

// ── Escaping ──────────────────────────────────────────────────────────────

/// A text value as it reads: `\n` stands for a break, shown as a space, and a backslash
/// before any other character stands for that character.
pub open spec fn unescaped(s: Seq<char>) -> Seq<char>
    decreases s.len(),
{
    if s.len() == 0 {
        Seq::empty()
    } else if s[0] != '\\' {
        seq![s[0]] + unescaped(s.drop_first())
    } else if s.len() == 1 {
        Seq::empty()
    } else if s[1] == 'n' || s[1] == 'N' {
        seq![' '] + unescaped(s.skip(2))
    } else {
        seq![s[1]] + unescaped(s.skip(2))
    }
}

/// Reads a text value.
pub fn unescape_text(v: &str) -> (out: String)
    ensures
        out@ == unescaped(v@),
{
    let chars = to_chars(v);
    let mut out = String::new();
    let mut i: usize = 0;
    assert(v@.skip(0) =~= v@);
    while i < chars.len()
        invariant
            chars@ == v@,
            i <= chars@.len(),
            out@ + unescaped(v@.skip(i as int)) == unescaped(v@),
        decreases chars@.len() - i,
    {
        let ghost rest = v@.skip(i as int);
        let ghost before = out@;
        let c = chars[i];
        assert(rest.drop_first() =~= v@.skip(i + 1));
        assert(rest[0] == c);
        if c != '\\' {
            out.push(c);
            i = i + 1;
            assert(before + (seq![c] + unescaped(v@.skip(i as int))) =~= out@ + unescaped(
                v@.skip(i as int),
            ));
        } else if i + 1 < chars.len() {
            let d = chars[i + 1];
            assert(rest[1] == d);
            assert(rest.skip(2) =~= v@.skip(i + 2));
            let shown = if d == 'n' || d == 'N' {
                ' '
            } else {
                d
            };
            out.push(shown);
            i = i + 2;
            assert(before + (seq![shown] + unescaped(v@.skip(i as int))) =~= out@ + unescaped(
                v@.skip(i as int),
            ));
        } else {
            i = i + 1;
            assert(v@.skip(i as int) =~= Seq::<char>::empty());
        }
    }
    assert(v@.skip(i as int) =~= Seq::<char>::empty());
    assert(out@ =~= out@ + Seq::<char>::empty());
    out
}

/// How one character is written in a text value.
pub open spec fn escaped_char(c: char) -> Seq<char> {
    if c == '\\' {
        seq!['\\', '\\']
    } else if c == ',' {
        seq!['\\', ',']
    } else if c == ';' {
        seq!['\\', ';']
    } else if c == '\n' {
        seq!['\\', 'n']
    } else {
        seq![c]
    }
}

/// How a text is written as a value.
pub open spec fn escaped(s: Seq<char>) -> Seq<char>
    decreases s.len(),
{
    if s.len() == 0 {
        Seq::empty()
    } else {
        escaped(s.drop_last()) + escaped_char(s.last())
    }
}

/// Writes a text value.
pub fn escape_text(v: &str) -> (out: String)
    ensures
        out@ == escaped(v@),
{
    let chars = to_chars(v);
    let mut out = String::new();
    let mut i: usize = 0;
    while i < chars.len()
        invariant
            chars@ == v@,
            i <= chars@.len(),
            out@ == escaped(v@.take(i as int)),
        decreases chars@.len() - i,
    {
        let c = chars[i];
        let ghost before = out@;
        assert(v@.take(i + 1).drop_last() =~= v@.take(i as int));
        match c {
            '\\' => {
                out.push('\\');
                out.push('\\');
            },
            ',' => {
                out.push('\\');
                out.push(',');
            },
            ';' => {
                out.push('\\');
                out.push(';');
            },
            '\n' => {
                out.push('\\');
                out.push('n');
            },
            _ => out.push(c),
        }
        assert(out@ =~= before + escaped_char(c));
        i = i + 1;
    }
    assert(v@.take(i as int) =~= v@);
    out
}

/// `s` on one line: every line feed is a space.
pub open spec fn on_one_line(s: Seq<char>) -> Seq<char> {
    Seq::new(
        s.len(),
        |i: int|
            if s[i] == '\n' {
                ' '
            } else {
                s[i]
            },
    )
}

/// What was written as a text value reads back as it was, on one line.
pub proof fn law_text_values_read_back(s: Seq<char>)
    ensures
        unescaped(escaped(s)) == on_one_line(s),
{
    lemma_unescaped_after(s, Seq::empty());
    assert(escaped(s) + Seq::<char>::empty() =~= escaped(s));
    assert(on_one_line(s) + Seq::<char>::empty() =~= on_one_line(s));
}

proof fn lemma_unescaped_after(s: Seq<char>, rest: Seq<char>)
    ensures
        unescaped(escaped(s) + rest) == on_one_line(s) + unescaped(rest),
    decreases s.len(),
{
    if s.len() == 0 {
        assert(escaped(s) + rest =~= rest);
        assert(on_one_line(s) + unescaped(rest) =~= unescaped(rest));
    } else {
        let c = s.last();
        let tail = escaped_char(c) + rest;
        lemma_unescaped_after(s.drop_last(), tail);
        assert(escaped(s) + rest =~= escaped(s.drop_last()) + tail);
        let shown = if c == '\n' {
            ' '
        } else {
            c
        };
        assert(unescaped(tail) == seq![shown] + unescaped(rest)) by {
            if escaped_char(c).len() == 1 {
                assert(tail.drop_first() =~= rest);
            } else {
                assert(tail.skip(2) =~= rest);
            }
        }
        assert(on_one_line(s) + unescaped(rest) =~= on_one_line(s.drop_last()) + (seq![shown]
            + unescaped(rest)));
    }
}

/// A text value takes one line: it holds no line feed.
pub proof fn law_text_values_take_one_line(s: Seq<char>)
    ensures
        !escaped(s).contains('\n'),
    decreases s.len(),
{
    if s.len() > 0 {
        law_text_values_take_one_line(s.drop_last());
        let e = escaped(s.drop_last());
        assert forall|i: int| 0 <= i < escaped(s).len() implies escaped(s)[i] != '\n' by {
            if i < e.len() {
                assert(escaped(s)[i] == e[i]);
                assert(e.contains(e[i]));
            } else {
                assert(escaped(s)[i] == escaped_char(s.last())[i - e.len()]);
            }
        }
    }
}

// ── Values and events ─────────────────────────────────────────────────────

/// When an event starts or ends.
#[derive(Debug, Clone)]
pub enum DtValue {
    /// A whole day.
    Date(Date),
    /// An instant in UTC.
    Utc(Moment),
    /// A reading of the clock, in a named zone or of the local clock.
    Zoned(Moment, Option<String>),
}

pub enum DtView {
    Date(Date),
    Utc(Moment),
    Zoned(Moment, Option<Seq<char>>),
}

impl View for DtValue {
    type V = DtView;

    open spec fn view(&self) -> DtView {
        match *self {
            DtValue::Date(d) => DtView::Date(d),
            DtValue::Utc(m) => DtView::Utc(m),
            DtValue::Zoned(m, zone) => DtView::Zoned(m, crate::text::opt_text(zone)),
        }
    }
}

/// Whether the date, and the time of day where there is one, exist.
pub open spec fn valid_dt(dt: DtView) -> bool {
    match dt {
        DtView::Date(d) => crate::date::valid_date(d),
        DtView::Utc(m) => crate::date::valid_moment(m),
        DtView::Zoned(m, _) => crate::date::valid_moment(m),
    }
}

pub open spec fn opt_dt(dt: Option<DtValue>) -> Option<DtView> {
    match dt {
        Some(d) => Some(d@),
        None => None,
    }
}

pub open spec fn valid_opt_dt(dt: Option<DtView>) -> bool {
    match dt {
        Some(d) => valid_dt(d),
        None => true,
    }
}

/// The key of a parameter in upper case.
pub open spec fn param_key(param: Seq<char>) -> Seq<char> {
    crate::text::upper(param.take(crate::text::find(param, '=')))
}

/// The value of a parameter; empty when there is none.
pub open spec fn param_value(param: Seq<char>) -> Seq<char> {
    if crate::text::find(param, '=') < param.len() {
        param.skip(crate::text::find(param, '=') + 1)
    } else {
        Seq::empty()
    }
}

/// The parameters of a head: what stands between and behind its semicolons.
pub open spec fn params(head: Seq<char>) -> Seq<Seq<char>> {
    crate::text::split_on(head, ';').skip(1)
}

/// The zone that the last parameter `TZID` names, without quotes.
pub open spec fn zone_param(params: Seq<Seq<char>>) -> Option<Seq<char>>
    decreases params.len(),
{
    if params.len() == 0 {
        None
    } else if param_key(params.last()) == "TZID"@ {
        Some(
            crate::text::strip_end(
                crate::text::strip_start(param_value(params.last()), '"'),
                '"',
            ),
        )
    } else {
        zone_param(params.drop_last())
    }
}

/// Whether a parameter says that the value is a date.
pub open spec fn is_date_param(param: Seq<char>) -> bool {
    param_key(param) == "VALUE"@ && crate::text::same_letters(param_value(param), "DATE"@)
}

/// Whether a property says that its value is a date.
pub open spec fn date_param(params: Seq<Seq<char>>) -> bool {
    exists|i: int| 0 <= i < params.len() && is_date_param(#[trigger] params[i])
}

/// When a property with this head and value says that something is.
pub open spec fn dt_read(head: Seq<char>, value: Seq<char>) -> Option<DtView> {
    let v = crate::text::trimmed(value);
    if date_param(params(head)) || vstd::utf8::encode_utf8(v).len() == 8 {
        match crate::date::date_read_as(v, "%Y%m%d"@) {
            Some(d) => Some(DtView::Date(d)),
            None => None,
        }
    } else if v.len() > 0 && v.last() == 'Z' {
        match crate::date::moment_read_as(v.drop_last(), "%Y%m%dT%H%M%S"@) {
            Some(m) => Some(DtView::Utc(m)),
            None => None,
        }
    } else {
        match crate::date::moment_read_as(v, "%Y%m%dT%H%M%S"@) {
            Some(m) => Some(DtView::Zoned(m, zone_param(params(head)))),
            None => None,
        }
    }
}

/// Splits a parameter into its key in upper case and its value.
fn split_param(param: &str) -> (r: (String, &str))
    ensures
        r.0@ == param_key(param@),
        r.1@ == param_value(param@),
{
    proof {
        crate::text::lemma_find(param@, '=');
        assert(param@.take(param@.len() as int) =~= param@);
        reveal_strlit("");
        assert(""@ =~= Seq::<char>::empty());
    }
    match split_once(param, '=') {
        Some((key, value)) => (to_upper(key), value),
        None => (to_upper(param), ""),
    }
}

/// Whether a value reads back as what was written: a date in eight digits, and an instant in
/// UTC where the property does not say that its value is a date; each with a year of four
/// digits.
pub open spec fn reads_back(head: Seq<char>, value: Seq<char>) -> bool {
    &&& forall|d: Date| #[trigger]
        crate::date::valid_date(d) && 0 <= d.year <= 9999 && value == crate::date::compact_text(d)
            ==> dt_read(head, value) == Some(DtView::Date(d))
    &&& forall|m: Moment| #[trigger]
        crate::date::valid_moment(m) && 0 <= m.date.year <= 9999 && value
            == crate::date::stamp_text(m) + seq!['Z'] && !date_param(params(head)) ==> dt_read(
            head,
            value,
        ) == Some(DtView::Utc(m))
}

/// A date in eight digits is read as one, and an instant in UTC is not.
proof fn lemma_forms(value: Seq<char>)
    ensures
        forall|d: Date| #[trigger]
            crate::date::valid_date(d) && 0 <= d.year <= 9999 && value
                == crate::date::compact_text(d) ==> crate::text::trimmed(value) == value
                && vstd::utf8::encode_utf8(value).len() == 8,
        forall|m: Moment| #[trigger]
            crate::date::valid_moment(m) && 0 <= m.date.year <= 9999 && value
                == crate::date::stamp_text(m) + seq!['Z'] ==> crate::text::trimmed(value) == value
                && vstd::utf8::encode_utf8(value).len() == 16 && value.drop_last()
                == crate::date::stamp_text(m),
{
    assert forall|d: Date| #[trigger]
        crate::date::valid_date(d) && 0 <= d.year <= 9999 && value == crate::date::compact_text(d)
        implies crate::text::trimmed(value) == value && vstd::utf8::encode_utf8(value).len()
        == 8 by {
        crate::date::lemma_compact(d);
        assert(crate::text::is_digit(value[0]) && crate::text::is_digit(value[7]));
        crate::text::lemma_trimmed(value);
        assert(vstd::utf8::is_ascii_chars(value)) by {
            assert forall|i: int| 0 <= i < value.len() implies '\0' <= #[trigger] value[i]
                <= '\u{7f}' by {
                assert(crate::text::is_digit(value[i]));
            }
        }
        vstd::utf8::is_ascii_chars_encode_utf8(value);
    }
    assert forall|m: Moment| #[trigger]
        crate::date::valid_moment(m) && 0 <= m.date.year <= 9999 && value
            == crate::date::stamp_text(m) + seq!['Z'] implies crate::text::trimmed(value) == value
        && vstd::utf8::encode_utf8(value).len() == 16 && value.drop_last()
        == crate::date::stamp_text(m) by {
        crate::date::lemma_compact(m.date);
        crate::text::lemma_two_digits(m.hour);
        crate::text::lemma_two_digits(m.minute);
        crate::text::lemma_two_digits(m.second);
        let day = crate::date::compact_text(m.date);
        let (h, n, s) = (
            crate::text::padded(m.hour as nat, 2),
            crate::text::padded(m.minute as nat, 2),
            crate::text::padded(m.second as nat, 2),
        );
        assert forall|i: int| 0 <= i < value.len() implies '\0' <= #[trigger] value[i]
            <= '\u{7f}' && (i != 8 && i != 15 ==> crate::text::is_digit(value[i])) by {
            if i < 8 {
                assert(value[i] == day[i]);
            } else if 9 <= i < 11 {
                assert(value[i] == h[i - 9]);
            } else if 11 <= i < 13 {
                assert(value[i] == n[i - 11]);
            } else if 13 <= i < 15 {
                assert(value[i] == s[i - 13]);
            }
        }
        assert(value[0] == day[0] && value[15] == 'Z');
        crate::text::lemma_trimmed(value);
        assert(vstd::utf8::is_ascii_chars(value));
        vstd::utf8::is_ascii_chars_encode_utf8(value);
        assert(value.drop_last() =~= crate::date::stamp_text(m));
    }
}

/// Reads the value of a `DTSTART` or `DTEND` property.
pub fn parse_dt(name_and_params: &str, value: &str) -> (dt: Option<DtValue>)
    ensures
        opt_dt(dt) == dt_read(name_and_params@, value@),
        valid_opt_dt(opt_dt(dt)),
        reads_back(name_and_params@, value@),
{
    let parts = split(name_and_params, ';');
    let ghost all = params(name_and_params@);
    let mut tzid: Option<String> = None;
    let mut is_date = false;
    let mut i: usize = 1;
    assert(all.take(0) =~= Seq::<Seq<char>>::empty());
    proof {
        crate::text::lemma_find(name_and_params@, ';');
    }
    assert(crate::text::texts(parts@).len() >= 1);
    while i < parts.len()
        invariant
            1 <= i <= parts@.len(),
            all == crate::text::texts(parts@).skip(1),
            crate::text::opt_text(tzid) == zone_param(all.take(i - 1)),
            is_date == date_param(all.take(i - 1)),
        decreases parts@.len() - i,
    {
        let ghost done = all.take(i - 1);
        let ghost next = all.take(i as int);
        assert(next.drop_last() =~= done);
        assert(next.last() == parts@[i as int]@);
        let (key, param) = split_param(parts[i].as_str());
        let dated = text_eq(key.as_str(), "VALUE") && eq_ignore_case(param, "DATE");
        if text_eq(key.as_str(), "TZID") {
            tzid = Some(trim_char(param, '"').to_owned());
        }
        proof {
            if dated {
                assert(is_date_param(next[i - 1]));
            } else if is_date {
                let j = choose|j: int| 0 <= j < done.len() && is_date_param(#[trigger] done[j]);
                assert(next[j] == done[j]);
            } else {
                assert forall|j: int| 0 <= j < next.len() implies !is_date_param(
                    #[trigger] next[j],
                ) by {
                    if j < done.len() {
                        assert(next[j] == done[j]);
                    }
                }
            }
        }
        if dated {
            is_date = true;
        }
        i = i + 1;
    }
    assert(all.take(i - 1) =~= all);
    proof {
        lemma_forms(value@);
    }
    let value = trim(value);
    if is_date || byte_len(value) == 8 {
        return match read_date_as(value, "%Y%m%d") {
            Some(d) => Some(DtValue::Date(d)),
            None => None,
        };
    }
    let chars = to_chars(value);
    if chars.len() > 0 && chars[chars.len() - 1] == 'Z' {
        let stripped = value.substring_char(0, chars.len() - 1);
        assert(stripped@ =~= value@.drop_last());
        return match read_moment_as(stripped, "%Y%m%dT%H%M%S") {
            Some(m) => Some(DtValue::Utc(m)),
            None => None,
        };
    }
    match read_moment_as(value, "%Y%m%dT%H%M%S") {
        Some(m) => Some(DtValue::Zoned(m, tzid)),
        None => None,
    }
}

/// The few properties of an event that a mirror needs.
#[derive(Debug)]
pub struct VEvent {
    pub uid: String,
    pub summary: String,
    pub dtstart: Option<DtValue>,
    pub dtend: Option<DtValue>,
    pub cancelled: bool,
    pub has_rrule: bool,
    pub has_recurrence_id: bool,
}

#[verifier::ext_equal]
pub struct VEventView {
    pub uid: Seq<char>,
    pub summary: Seq<char>,
    pub dtstart: Option<DtView>,
    pub dtend: Option<DtView>,
    pub cancelled: bool,
    pub has_rrule: bool,
    pub has_recurrence_id: bool,
}

impl View for VEvent {
    type V = VEventView;

    open spec fn view(&self) -> VEventView {
        VEventView {
            uid: self.uid@,
            summary: self.summary@,
            dtstart: opt_dt(self.dtstart),
            dtend: opt_dt(self.dtend),
            cancelled: self.cancelled,
            has_rrule: self.has_rrule,
            has_recurrence_id: self.has_recurrence_id,
        }
    }
}

/// Whether the start and the end of an event, where it has them, exist.
pub open spec fn valid_event(ev: VEventView) -> bool {
    valid_opt_dt(ev.dtstart) && valid_opt_dt(ev.dtend)
}

/// An event of which nothing is known.
pub open spec fn blank_event() -> VEventView {
    VEventView {
        uid: Seq::empty(),
        summary: Seq::empty(),
        dtstart: None,
        dtend: None,
        cancelled: false,
        has_rrule: false,
        has_recurrence_id: false,
    }
}

impl Default for VEvent {
    fn default() -> (ev: Self)
        ensures
            ev@ == blank_event(),
    {
        VEvent {
            uid: String::new(),
            summary: String::new(),
            dtstart: None,
            dtend: None,
            cancelled: false,
            has_rrule: false,
            has_recurrence_id: false,
        }
    }
}

/// What is known of an event once a property of it has been read.
pub open spec fn with_property(
    ev: VEventView,
    name: Seq<char>,
    head: Seq<char>,
    value: Seq<char>,
) -> VEventView {
    if name == "UID"@ {
        VEventView { uid: crate::text::trimmed(value), ..ev }
    } else if name == "SUMMARY"@ {
        VEventView { summary: unescaped(crate::text::trimmed(value)), ..ev }
    } else if name == "DTSTART"@ {
        VEventView { dtstart: dt_read(head, value), ..ev }
    } else if name == "DTEND"@ {
        VEventView { dtend: dt_read(head, value), ..ev }
    } else if name == "RRULE"@ || name == "RDATE"@ {
        VEventView { has_rrule: true, ..ev }
    } else if name == "RECURRENCE-ID"@ {
        VEventView { has_recurrence_id: true, ..ev }
    } else if name == "STATUS"@ {
        VEventView {
            cancelled: crate::text::same_letters(crate::text::trimmed(value), "CANCELLED"@),
            ..ev
        }
    } else {
        ev
    }
}

fn read_property(ev: &mut VEvent, name: &str, head: &str, value: &str)
    requires
        valid_event(old(ev)@),
    ensures
        final(ev)@ == with_property(old(ev)@, name@, head@, value@),
        valid_event(final(ev)@),
        name@ == "DTSTART"@ || name@ == "DTEND"@ ==> reads_back(head@, value@),
{
    proof {
        crate::ics_laws::lemma_names_differ();
    }
    if text_eq(name, "UID") {
        ev.uid = trim(value).to_owned();
    } else if text_eq(name, "SUMMARY") {
        ev.summary = unescape_text(trim(value));
    } else if text_eq(name, "DTSTART") {
        ev.dtstart = parse_dt(head, value);
    } else if text_eq(name, "DTEND") {
        ev.dtend = parse_dt(head, value);
    } else if text_eq(name, "RRULE") || text_eq(name, "RDATE") {
        ev.has_rrule = true;
    } else if text_eq(name, "RECURRENCE-ID") {
        ev.has_recurrence_id = true;
    } else if text_eq(name, "STATUS") {
        ev.cancelled = eq_ignore_case(trim(value), "CANCELLED");
    }
}

/// Whether a line opens an event.
pub open spec fn begins_event(line: Seq<char>) -> bool {
    line_name(line) == "BEGIN"@ && crate::text::same_letters(line_value(line), "VEVENT"@)
}

/// Whether a line closes an event.
pub open spec fn ends_event(line: Seq<char>) -> bool {
    line_name(line) == "END"@ && crate::text::same_letters(line_value(line), "VEVENT"@)
}

/// The events so far, and the one that is still open, once a line has been read.
pub open spec fn after_line(
    st: (Seq<VEventView>, Option<VEventView>),
    line: Seq<char>,
) -> (Seq<VEventView>, Option<VEventView>) {
    if !is_content_line(line) {
        st
    } else if begins_event(line) {
        (st.0, Some(blank_event()))
    } else {
        match st.1 {
            None => st,
            Some(ev) => if ends_event(line) {
                (st.0.push(ev), None)
            } else {
                (
                    st.0,
                    Some(with_property(ev, line_name(line), line_head(line), line_value(line))),
                )
            },
        }
    }
}

/// The events that lines hold, and the one that is still open behind them.
pub open spec fn events_in(lines: Seq<Seq<char>>) -> (Seq<VEventView>, Option<VEventView>)
    decreases lines.len(),
{
    if lines.len() == 0 {
        (Seq::empty(), None)
    } else {
        after_line(events_in(lines.drop_last()), lines.last())
    }
}

pub open spec fn event_views(events: Seq<VEvent>) -> Seq<VEventView> {
    Seq::new(events.len(), |i: int| events[i]@)
}

pub open spec fn opt_event(ev: Option<VEvent>) -> Option<VEventView> {
    match ev {
        Some(e) => Some(e@),
        None => None,
    }
}

/// Whether a line is a property of an event that says when it starts or ends.
pub open spec fn is_dt_line(line: Seq<char>) -> bool {
    &&& is_content_line(line)
    &&& line_name(line) == "DTSTART"@ || line_name(line) == "DTEND"@
}

/// Whether the values of the lines of events that say when these start or end read back as
/// what was written.
pub open spec fn values_read_back(lines: Seq<Seq<char>>) -> bool {
    forall|k: int|
        0 <= k < lines.len() && is_dt_line(#[trigger] lines[k]) && events_in(lines.take(k)).1 is Some
            ==> reads_back(line_head(lines[k]), line_value(lines[k]))
}

/// Reads the events of an iCalendar text. Of a text that was written here as a new event it
/// reads that event.
pub fn parse_ics_events(ics: &str) -> (events: Vec<VEvent>)
    ensures
        event_views(events@) == events_in(logical_lines(ics@)).0,
        forall|i: int| 0 <= i < events@.len() ==> valid_event(#[trigger] events@[i]@),
        forall|uid: Seq<char>, date: Date, title: Seq<char>| #[trigger]
            crate::ics_laws::is_new_day(ics@, uid, date, title) ==> event_views(events@) == seq![
                crate::ics_laws::day_event(uid, date, title),
            ],
        forall|uid: Seq<char>, start: Moment, end: Moment, title: Seq<char>| #[trigger]
            crate::ics_laws::is_new_timed(ics@, uid, start, end, title) ==> event_views(events@)
                == seq![crate::ics_laws::timed_event(uid, start, end, title)],
{
    let lines = unfold(ics);
    let ghost all = crate::text::texts(lines@);
    let mut events: Vec<VEvent> = Vec::new();
    let mut current: Option<VEvent> = None;
    let mut i: usize = 0;
    proof {
        reveal_strlit("BEGIN");
        reveal_strlit("END");
    }
    while i < lines.len()
        invariant
            all == crate::text::texts(lines@),
            i <= lines@.len(),
            event_views(events@) == events_in(all.take(i as int)).0,
            opt_event(current) == events_in(all.take(i as int)).1,
            forall|j: int| 0 <= j < events@.len() ==> valid_event(#[trigger] events@[j]@),
            current is Some ==> valid_event(current->0@),
            values_read_back(all.take(i as int)),
            "BEGIN"@.len() == 5,
            "END"@.len() == 3,
        decreases lines@.len() - i,
    {
        assert(all.take(i + 1).drop_last() =~= all.take(i as int));
        assert(all.take(i + 1).last() == lines@[i as int]@);
        let ghost before = event_views(events@);
        let ghost open = opt_event(current);
        let line = lines[i].as_str();
        if let Some((head, value)) = split_content_line(line) {
            let name = name_of_head(head);
            let of_event = eq_ignore_case(value, "VEVENT");
            if text_eq(name.as_str(), "BEGIN") && of_event {
                current = Some(VEvent::default());
            } else if text_eq(name.as_str(), "END") && of_event {
                if let Some(ev) = current {
                    events.push(ev);
                    assert(event_views(events@) =~= before.push(ev@));
                }
                current = None;
            } else if let Some(mut ev) = current {
                read_property(&mut ev, name.as_str(), head, value);
                current = Some(ev);
            }
        }
        proof {
            let next = all.take(i + 1);
            assert forall|k: int|
                0 <= k < next.len() && is_dt_line(#[trigger] next[k]) && events_in(
                    next.take(k),
                ).1 is Some implies reads_back(line_head(next[k]), line_value(next[k])) by {
                assert(next.take(k) =~= all.take(k));
                if k < i {
                    let done = all.take(i as int);
                    assert(next[k] == done[k]);
                    assert(done.take(k) =~= all.take(k));
                } else {
                    assert(open is Some);
                    crate::ics_laws::lemma_names_differ();
                }
            }
        }
        i = i + 1;
    }
    assert(all.take(i as int) =~= all);
    proof {
        assert forall|uid: Seq<char>, date: Date, title: Seq<char>| #[trigger]
            crate::ics_laws::is_new_day(ics@, uid, date, title) implies event_views(events@)
            == seq![crate::ics_laws::day_event(uid, date, title)] by {
            crate::ics_laws::lemma_new_day(ics@, uid, date, title);
        }
        assert forall|uid: Seq<char>, start: Moment, end: Moment, title: Seq<char>| #[trigger]
            crate::ics_laws::is_new_timed(ics@, uid, start, end, title) implies event_views(
            events@,
        ) == seq![crate::ics_laws::timed_event(uid, start, end, title)] by {
            crate::ics_laws::lemma_new_timed(ics@, uid, start, end, title);
        }
    }
    events
}

} // verus!
