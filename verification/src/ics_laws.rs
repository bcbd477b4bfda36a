//! What reading gives back of iCalendar texts that were written here.
use vstd::prelude::*;

use crate::date::{Date, Moment};

verus! {

// ── Lines ─────────────────────────────────────────────────────────────────

/// Whether a text can stand on a line: it is not empty and holds no line feed.
pub open spec fn is_line(l: Seq<char>) -> bool {
    l.len() > 0 && !l.contains('\n')
}

/// Whether a text is a line that does not look like a continuation.
pub open spec fn is_plain_line(l: Seq<char>) -> bool {
    is_line(l) && !crate::ics::is_continuation(l)
}

/// Whether unfolding leaves lines as they are: none but the first looks like a continuation.
pub open spec fn are_plain_lines(lines: Seq<Seq<char>>) -> bool {
    &&& forall|i: int| 0 <= i < lines.len() ==> is_line(#[trigger] lines[i])
    &&& forall|i: int| 0 < i < lines.len() ==> !crate::ics::is_continuation(#[trigger] lines[i])
}

/// Lines that are written read back as they were.
pub proof fn law_lines_read_back(lines: Seq<Seq<char>>)
    requires
        are_plain_lines(lines),
    ensures
        crate::ics::logical_lines(crate::vevent::lines_text(lines)) == lines,
{
    reveal(Seq::filter);
    let raw = physical(lines);
    lemma_split_lines(lines);
    let none = Seq::<char>::empty();
    let all = lines.push(none);
    assert forall|n: int| 0 <= n <= lines.len() implies crate::ics::join_lines(raw.take(n))
        == #[trigger] lines.take(n) by {
        lemma_join_plain(lines, n);
    }
    assert(crate::ics::join_lines(raw.take(lines.len() as int)) == lines.take(lines.len() as int));
    assert(raw.drop_last() =~= raw.take(lines.len() as int));
    assert(lines.take(lines.len() as int) =~= lines);
    assert(crate::ics::without_return(raw.last()) =~= none);
    assert(crate::ics::join_lines(raw) =~= all);
    lemma_filter_all(lines, crate::ics::nonempty());
    assert(all.drop_last() =~= lines);
}

/// Lines as they stand between line feeds: each with a carriage return, and what follows the
/// last feed.
spec fn physical(lines: Seq<Seq<char>>) -> Seq<Seq<char>> {
    Seq::new(
        lines.len() + 1,
        |i: int|
            if i < lines.len() {
                lines[i].push('\r')
            } else {
                Seq::empty()
            },
    )
}

/// The first of lines stands first in their text.
proof fn lemma_first_line(lines: Seq<Seq<char>>)
    requires
        lines.len() > 0,
    ensures
        crate::vevent::lines_text(lines) == lines[0] + seq!['\r', '\n']
            + crate::vevent::lines_text(lines.drop_first()),
    decreases lines.len(),
{
    let text = crate::vevent::lines_text(lines);
    let before = crate::vevent::lines_text(lines.drop_last());
    if lines.len() == 1 {
        assert(lines.drop_last() =~= Seq::empty());
        assert(lines.drop_first() =~= Seq::empty());
        assert(text =~= lines[0] + seq!['\r', '\n'] + Seq::<char>::empty());
    } else {
        lemma_first_line(lines.drop_last());
        assert(lines.drop_last().drop_first() =~= lines.drop_first().drop_last());
        assert(lines.drop_first().last() == lines.last());
        assert(text =~= lines[0] + seq!['\r', '\n'] + crate::vevent::lines_text(
            lines.drop_first(),
        ));
    }
}

proof fn lemma_split_lines(lines: Seq<Seq<char>>)
    requires
        forall|i: int| 0 <= i < lines.len() ==> is_line(#[trigger] lines[i]),
    ensures
        crate::text::split_on(crate::vevent::lines_text(lines), '\n') == physical(lines),
    decreases lines.len(),
{
    let text = crate::vevent::lines_text(lines);
    if lines.len() == 0 {
        crate::text::lemma_find(text, '\n');
        assert(physical(lines) =~= seq![text]);
    } else {
        let first = lines[0];
        let rest = lines.drop_first();
        lemma_first_line(lines);
        assert forall|i: int| 0 <= i < rest.len() implies is_line(#[trigger] rest[i]) by {
            assert(is_line(lines[i + 1]));
        }
        lemma_split_lines(rest);
        let k = (first.len() + 1) as int;
        assert(is_line(first));
        assert forall|i: int| 0 <= i < k implies text[i] != '\n' by {
            if i < first.len() {
                assert(first.contains(first[i]));
            }
        }
        crate::text::lemma_find_is(text, '\n', k);
        assert(text.take(k) =~= first.push('\r'));
        assert(text.skip(k + 1) =~= crate::vevent::lines_text(rest));
        assert(physical(lines) =~= seq![first.push('\r')] + physical(rest));
    }
}

proof fn lemma_join_plain(lines: Seq<Seq<char>>, n: int)
    requires
        0 <= n <= lines.len(),
        are_plain_lines(lines),
    ensures
        crate::ics::join_lines(physical(lines).take(n)) == lines.take(n),
    decreases n,
{
    let raw = physical(lines);
    if n > 0 {
        lemma_join_plain(lines, n - 1);
        assert(raw.take(n).drop_last() =~= raw.take(n - 1));
        assert(n > 1 ==> !crate::ics::is_continuation(lines[n - 1]));
        assert(crate::ics::without_return(raw.take(n).last()) =~= lines[n - 1]);
        assert(lines.take(n) =~= lines.take(n - 1).push(lines[n - 1]));
    } else {
        assert(lines.take(0) =~= Seq::empty());
    }
}

/// Nothing is dropped where all is wanted.
proof fn lemma_filter_all(lines: Seq<Seq<char>>, p: spec_fn(Seq<char>) -> bool)
    requires
        forall|i: int| 0 <= i < lines.len() ==> p(#[trigger] lines[i]),
    ensures
        lines.filter(p) == lines,
    decreases lines.len(),
{
    reveal(Seq::filter);
    if lines.len() > 0 {
        let rest = lines.drop_last();
        assert forall|i: int| 0 <= i < rest.len() implies p(#[trigger] rest[i]) by {
            assert(p(lines[i]));
        }
        lemma_filter_all(rest, p);
        assert(p(lines[lines.len() - 1]));
        assert(rest.push(lines.last()) =~= lines);
    } else {
        assert(lines.filter(p) =~= lines);
    }
}

// ── Folding ───────────────────────────────────────────────────────────────

/// The pieces of a text, where each ends with a separator or the text, and of a text behind it.
pub proof fn lemma_split_parts(a: Seq<char>, b: Seq<char>, c: char)
    ensures
        ({
            let (p, q) = (crate::text::split_on(a, c), crate::text::split_on(b, c));
            &&& p.len() > 0
            &&& q.len() > 0
            &&& crate::text::split_on(a + b, c) == p.drop_last() + seq![p.last() + q[0]]
                + q.drop_first()
        }),
    decreases a.len(),
{
    let (p, q) = (crate::text::split_on(a, c), crate::text::split_on(b, c));
    let k = crate::text::find(a, c);
    crate::text::lemma_find(a, c);
    crate::text::lemma_find(b, c);
    let all = a + b;
    if k < a.len() {
        let rest = a.skip(k + 1);
        lemma_split_parts(rest, b, c);
        assert forall|i: int| 0 <= i < k implies all[i] != c by {
            assert(all[i] == a[i]);
        }
        crate::text::lemma_find_is(all, c, k);
        assert(all.take(k) =~= a.take(k));
        assert(all.skip(k + 1) =~= rest + b);
        let r = crate::text::split_on(rest, c);
        assert(p =~= seq![a.take(k)] + r);
        assert(p.drop_last() =~= seq![a.take(k)] + r.drop_last());
        assert(p.last() == r.last());
        assert(crate::text::split_on(all, c) =~= p.drop_last() + seq![p.last() + q[0]]
            + q.drop_first());
    } else {
        assert(p.drop_last() =~= Seq::empty());
        let m = crate::text::find(b, c);
        assert forall|i: int| 0 <= i < a.len() + m implies all[i] != c by {
            if i < a.len() {
                assert(all[i] == a[i]);
            } else {
                assert(all[i] == b[i - a.len()]);
            }
        }
        crate::text::lemma_find_is(all, c, a.len() + m);
        if m < b.len() {
            assert(all.take(a.len() + m) =~= a + b.take(m));
            assert(all.skip(a.len() + m + 1) =~= b.skip(m + 1));
            assert(q.drop_first() =~= crate::text::split_on(b.skip(m + 1), c));
        } else {
            assert(q.drop_first() =~= Seq::empty());
        }
        assert(crate::text::split_on(all, c) =~= p.drop_last() + seq![p.last() + q[0]]
            + q.drop_first());
    }
}

/// What follows lines is joined to them whatever they came from.
proof fn lemma_join_on(a: Seq<Seq<char>>, b: Seq<Seq<char>>, rest: Seq<Seq<char>>)
    requires
        crate::ics::join_lines(a) == crate::ics::join_lines(b),
    ensures
        crate::ics::join_lines(a + rest) == crate::ics::join_lines(b + rest),
    decreases rest.len(),
{
    if rest.len() > 0 {
        lemma_join_on(a, b, rest.drop_last());
        assert((a + rest).drop_last() =~= a + rest.drop_last());
        assert((b + rest).drop_last() =~= b + rest.drop_last());
    } else {
        assert(a + rest =~= a);
        assert(b + rest =~= b);
    }
}

/// A line break and a space or a tab: with a carriage return or without.
pub open spec fn fold(with_return: bool, with_tab: bool) -> Seq<char> {
    (if with_return {
        seq!['\r', '\n']
    } else {
        seq!['\n']
    }).push(
        if with_tab {
            '\t'
        } else {
            ' '
        },
    )
}

/// Folding a line anywhere changes nothing, but at the end of a line.
pub proof fn law_folding_changes_nothing(
    a: Seq<char>,
    b: Seq<char>,
    with_return: bool,
    with_tab: bool,
)
    requires
        a.len() > 0,
        a.last() != '\r',
        a.last() != '\n',
    ensures
        crate::ics::logical_lines(a + fold(with_return, with_tab) + b)
            == crate::ics::logical_lines(a + b),
{
    let (p, q) = (crate::text::split_on(a, '\n'), crate::text::split_on(b, '\n'));
    let none = Seq::<char>::empty();
    let r: Seq<char> = if with_return {
        seq!['\r']
    } else {
        none
    };
    let c = if with_tab {
        '\t'
    } else {
        ' '
    };
    let nl = seq!['\n'];
    lemma_split_parts(a, b, '\n');
    lemma_split_parts(a, r, '\n');
    lemma_split_parts(seq![c], b, '\n');
    lemma_one_piece(r);
    lemma_one_piece(seq![c]);
    lemma_break(nl);
    let first = a + r;
    let second = seq![c] + b;
    lemma_split_parts(first, nl + second, '\n');
    lemma_split_parts(nl, second, '\n');
    let (s, t) = (crate::text::split_on(first, '\n'), crate::text::split_on(second, '\n'));
    assert(r =~= none + r);
    assert(s =~= p.drop_last() + seq![p.last() + r]);
    assert(t =~= seq![seq![c] + q[0]] + q.drop_first());
    let text = a + fold(with_return, with_tab) + b;
    assert(text =~= first + (nl + second));
    let folded = crate::text::split_on(text, '\n');
    let (head, rest) = (p.drop_last(), q.drop_first());
    assert(crate::text::split_on(nl + second, '\n') =~= seq![none] + t);
    assert(s.last() + none =~= s.last());
    assert(folded =~= head + seq![p.last() + r] + seq![seq![c] + q[0]] + rest);
    let plain = crate::text::split_on(a + b, '\n');
    lemma_last_piece(a);
    lemma_fold_joins(head, p.last(), q[0], r, c);
    lemma_join_on(
        head + seq![p.last() + r] + seq![seq![c] + q[0]],
        head + seq![p.last() + q[0]],
        rest,
    );
}

proof fn lemma_one_piece(s: Seq<char>)
    requires
        forall|i: int| 0 <= i < s.len() ==> #[trigger] s[i] != '\n',
    ensures
        crate::text::split_on(s, '\n') == seq![s],
{
    crate::text::lemma_find_is(s, '\n', s.len() as int);
}

proof fn lemma_break(nl: Seq<char>)
    requires
        nl == seq!['\n'],
    ensures
        crate::text::split_on(nl, '\n') == seq![Seq::<char>::empty(), Seq::<char>::empty()],
{
    let none = Seq::<char>::empty();
    crate::text::lemma_find_is(nl, '\n', 0);
    assert(nl.take(0) =~= none);
    assert(nl.skip(1) =~= none);
    lemma_one_piece(none);
    assert(crate::text::split_on(nl, '\n') =~= seq![none, none]);
}

/// The last piece of a text that does not end in a separator ends as the text does.
proof fn lemma_last_piece(a: Seq<char>)
    requires
        a.len() > 0,
        a.last() != '\n',
    ensures
        ({
            let p = crate::text::split_on(a, '\n');
            p.len() > 0 && p.last().len() > 0 && p.last().last() == a.last()
        }),
    decreases a.len(),
{
    let k = crate::text::find(a, '\n');
    crate::text::lemma_find(a, '\n');
    if k < a.len() {
        let rest = a.skip(k + 1);
        assert(rest.last() == a.last());
        lemma_last_piece(rest);
    }
}

/// A line that was folded is joined again.
proof fn lemma_fold_joins(
    head: Seq<Seq<char>>,
    p: Seq<char>,
    q: Seq<char>,
    r: Seq<char>,
    c: char,
)
    requires
        p.len() > 0,
        p.last() != '\r',
        c == ' ' || c == '\t',
        r.len() == 0 || r == seq!['\r'],
    ensures
        crate::ics::join_lines(head + seq![p + r] + seq![seq![c] + q])
            == crate::ics::join_lines(head + seq![p + q]),
{
    let one = head + seq![p + r];
    let two = one + seq![seq![c] + q];
    let plain = head + seq![p + q];
    let before = crate::ics::join_lines(head);
    assert(one.drop_last() =~= head);
    assert(two.drop_last() =~= one);
    assert(plain.drop_last() =~= head);
    let w = crate::ics::without_return(q);
    assert(crate::ics::without_return(p + r) =~= p);
    assert(crate::ics::without_return(p + q) =~= p + w);
    assert(crate::ics::without_return(seq![c] + q) =~= seq![c] + w);
    assert((seq![c] + w).drop_first() =~= w);
    let joined = crate::ics::join_lines(one);
    if crate::ics::is_continuation(p) && before.len() > 0 {
        assert(crate::ics::is_continuation(p + w));
        assert((p + w).drop_first() =~= p.drop_first() + w);
        assert(joined.drop_last() =~= before.drop_last());
        assert(before.last() + (p.drop_first() + w) =~= before.last() + p.drop_first() + w);
    } else {
        assert(!(crate::ics::is_continuation(p + w) && before.len() > 0));
        assert(joined.drop_last() =~= before);
    }
}

/// A logical line is not empty and holds no line feed.
pub proof fn law_logical_lines_are_lines(text: Seq<char>, i: int)
    requires
        0 <= i < crate::ics::logical_lines(text).len(),
    ensures
        is_line(crate::ics::logical_lines(text)[i]),
{
    let raw = crate::text::split_on(text, '\n');
    let joined = crate::ics::join_lines(raw);
    lemma_pieces(text);
    lemma_joined_pieces(raw);
    crate::sync::lemma_filtered(joined, crate::ics::nonempty());
    let l = crate::ics::logical_lines(text)[i];
    assert(crate::ics::logical_lines(text).contains(l));
    let k = choose|k: int| 0 <= k < joined.len() && joined[k] == l;
    assert(!joined[k].contains('\n'));
}

proof fn lemma_pieces(s: Seq<char>)
    ensures
        forall|k: int|
            0 <= k < crate::text::split_on(s, '\n').len() ==> !(
            #[trigger] crate::text::split_on(s, '\n')[k]).contains('\n'),
    decreases s.len(),
{
    let p = crate::text::split_on(s, '\n');
    let k = crate::text::find(s, '\n');
    crate::text::lemma_find(s, '\n');
    if k < s.len() {
        let rest = s.skip(k + 1);
        lemma_pieces(rest);
        assert forall|i: int| 0 <= i < p.len() implies !(#[trigger] p[i]).contains('\n') by {
            if i > 0 {
                assert(p[i] == crate::text::split_on(rest, '\n')[i - 1]);
            }
        }
    }
}

proof fn lemma_joined_pieces(raw: Seq<Seq<char>>)
    requires
        forall|k: int| 0 <= k < raw.len() ==> !(#[trigger] raw[k]).contains('\n'),
    ensures
        forall|k: int|
            0 <= k < crate::ics::join_lines(raw).len() ==> !(
            #[trigger] crate::ics::join_lines(raw)[k]).contains('\n'),
    decreases raw.len(),
{
    if raw.len() > 0 {
        let before = crate::ics::join_lines(raw.drop_last());
        let line = crate::ics::without_return(raw.last());
        assert forall|k: int| 0 <= k < raw.drop_last().len() implies !(
        #[trigger] raw.drop_last()[k]).contains('\n') by {
            assert(raw[k] == raw.drop_last()[k]);
        }
        lemma_joined_pieces(raw.drop_last());
        let joined = crate::ics::join_lines(raw);
        assert(!raw[raw.len() - 1].contains('\n'));
        assert forall|j: int| 0 <= j < line.len() implies line[j] != '\n' by {
            assert(raw.last()[j] == line[j]);
            assert(raw.last().contains(line[j]));
        }
        assert forall|k: int| 0 <= k < joined.len() implies !(#[trigger] joined[k]).contains(
            '\n',
        ) by {
            if k < before.len() - 1 || (k < before.len() && joined.len() > before.len()) {
                assert(joined[k] == before[k]);
            } else if joined.len() > before.len() {
                assert(joined[k] == line);
            } else {
                let tail = line.drop_first();
                assert(joined[k] == before.last() + tail);
                assert forall|j: int| 0 <= j < joined[k].len() implies joined[k][j] != '\n' by {
                    if j < before.last().len() {
                        assert(!before[before.len() - 1].contains('\n'));
                        assert(before.last().contains(before.last()[j]));
                    } else {
                        assert(joined[k][j] == line[j - before.last().len() + 1]);
                    }
                }
            }
        }
    }
}

// ── Properties ────────────────────────────────────────────────────────────

/// Whether a text can be what stands before the colon of a content line: it holds neither a
/// colon nor a double quote.
pub open spec fn is_plain_head(head: Seq<char>) -> bool {
    forall|i: int| 0 <= i < head.len() ==> #[trigger] head[i] != ':' && head[i] != '"'
}

/// A content line falls into what was put before and behind its colon.
pub proof fn lemma_content_line(head: Seq<char>, value: Seq<char>)
    requires
        is_plain_head(head),
    ensures
        ({
            let line = head + seq![':'] + value;
            &&& crate::ics::is_content_line(line)
            &&& crate::ics::line_head(line) == head
            &&& crate::ics::line_value(line) == value
            &&& crate::ics::line_name(line) == crate::ics::head_name(head)
        }),
{
    let line = head + seq![':'] + value;
    lemma_colon_at(head, value);
    assert(line.take(head.len() as int) =~= head);
    assert(line.skip((head.len() + 1) as int) =~= value);
}

proof fn lemma_colon_at(head: Seq<char>, value: Seq<char>)
    requires
        is_plain_head(head),
    ensures
        crate::ics::colon(head + seq![':'] + value, false) == head.len(),
    decreases head.len(),
{
    let line = head + seq![':'] + value;
    if head.len() > 0 {
        let rest = head.drop_first();
        assert forall|i: int| 0 <= i < rest.len() implies #[trigger] rest[i] != ':' && rest[i]
            != '"' by {
            assert(head[i + 1] == rest[i]);
        }
        lemma_colon_at(rest, value);
        assert(line.drop_first() =~= rest + seq![':'] + value);
        assert(line[0] == head[0]);
    }
}

/// Whether a text is a name in upper case.
spec fn is_plain_name(name: Seq<char>) -> bool {
    is_plain_head(name) && forall|i: int|
        0 <= i < name.len() ==> #[trigger] name[i] != ';' && crate::text::upper_char(name[i])
            == name[i]
}

/// A name in upper case is the name of the lines that it starts.
proof fn lemma_plain_name(name: Seq<char>)
    requires
        is_plain_name(name),
    ensures
        crate::ics::head_name(name) == name,
{
    crate::text::lemma_find_is(name, ';', name.len() as int);
    assert(name.take(name.len() as int) =~= name);
    assert(crate::text::upper(name) =~= name);
}

/// What reading a line gives that starts with a name and a colon.
proof fn lemma_property(name: Seq<char>, start: Seq<char>, value: Seq<char>)
    requires
        is_plain_name(name),
        start == name.push(':'),
    ensures
        ({
            let line = start + value;
            &&& crate::ics::is_content_line(line)
            &&& crate::ics::line_head(line) == name
            &&& crate::ics::line_name(line) == name
            &&& crate::ics::line_value(line) == value
        }),
{
    lemma_content_line(name, value);
    lemma_plain_name(name);
    assert(start + value =~= name + seq![':'] + value);
}

/// Reading one line more.
proof fn lemma_next_line(lines: Seq<Seq<char>>, n: int)
    requires
        0 <= n < lines.len(),
    ensures
        crate::ics::events_in(lines.take(n + 1)) == crate::ics::after_line(
            crate::ics::events_in(lines.take(n)),
            lines[n],
        ),
{
    assert(lines.take(n + 1).drop_last() =~= lines.take(n));
}

/// The names of the properties that are read differ from each other and from those that open
/// and close a component.
pub proof fn lemma_names_differ()
    ensures
        "UID"@.len() == 3,
        "END"@.len() == 3,
        "END"@ != "UID"@,
        "BEGIN"@.len() == 5,
        "RRULE"@.len() == 5,
        "RDATE"@.len() == 5,
        "DTEND"@.len() == 5,
        "DTEND"@ != "BEGIN"@,
        "STATUS"@.len() == 6,
        "SUMMARY"@.len() == 7,
        "DTSTART"@.len() == 7,
        "DTSTAMP"@.len() == 7,
        "CREATED"@.len() == 7,
        "SUMMARY"@ != "DTSTART"@,
        "SUMMARY"@ != "DTSTAMP"@,
        "SUMMARY"@ != "CREATED"@,
        "DTSTART"@ != "DTSTAMP"@,
        "DTSTART"@ != "CREATED"@,
        "RECURRENCE-ID"@.len() == 13,
{
    reveal_strlit("UID");
    reveal_strlit("END");
    reveal_strlit("BEGIN");
    reveal_strlit("RRULE");
    reveal_strlit("RDATE");
    reveal_strlit("DTEND");
    reveal_strlit("STATUS");
    reveal_strlit("SUMMARY");
    reveal_strlit("DTSTART");
    reveal_strlit("DTSTAMP");
    reveal_strlit("CREATED");
    reveal_strlit("RECURRENCE-ID");
    assert("END"@[0] != "UID"@[0]);
    assert("DTEND"@[0] != "BEGIN"@[0]);
    assert("SUMMARY"@[0] != "DTSTART"@[0]);
    assert("SUMMARY"@[0] != "DTSTAMP"@[0]);
    assert("SUMMARY"@[0] != "CREATED"@[0]);
    assert("DTSTART"@[5] != "DTSTAMP"@[5]);
    assert("DTSTART"@[0] != "CREATED"@[0]);
}

/// What the lines around and at the beginning of a new event read as.
proof fn lemma_fixed_lines(uid: Seq<char>, stamp: Seq<char>, title: Seq<char>)
    ensures
        !crate::ics::begins_event("BEGIN:VCALENDAR"@),
        !crate::ics::begins_event("VERSION:2.0"@),
        !crate::ics::begins_event("PRODID:-//cce//cce-calendar-sync//EN"@),
        crate::ics::is_content_line("BEGIN:VEVENT"@),
        crate::ics::begins_event("BEGIN:VEVENT"@),
        crate::ics::is_content_line("UID:"@ + uid),
        crate::ics::line_name("UID:"@ + uid) == "UID"@,
        crate::ics::line_value("UID:"@ + uid) == uid,
        crate::ics::is_content_line("DTSTAMP:"@ + stamp),
        crate::ics::line_name("DTSTAMP:"@ + stamp) == "DTSTAMP"@,
        crate::ics::is_content_line("CREATED:"@ + stamp),
        crate::ics::line_name("CREATED:"@ + stamp) == "CREATED"@,
        crate::ics::is_content_line("SUMMARY:"@ + title),
        crate::ics::line_name("SUMMARY:"@ + title) == "SUMMARY"@,
        crate::ics::line_value("SUMMARY:"@ + title) == title,
        crate::ics::is_content_line("END:VEVENT"@),
        crate::ics::ends_event("END:VEVENT"@),
        !crate::ics::begins_event("END:VEVENT"@),
        !crate::ics::begins_event("END:VCALENDAR"@),
{
    reveal_strlit("BEGIN");
    reveal_strlit("BEGIN:VCALENDAR");
    reveal_strlit("BEGIN:VEVENT");
    reveal_strlit("VCALENDAR");
    reveal_strlit("VEVENT");
    reveal_strlit("VERSION");
    reveal_strlit("VERSION:2.0");
    reveal_strlit("2.0");
    reveal_strlit("PRODID");
    reveal_strlit("PRODID:-//cce//cce-calendar-sync//EN");
    reveal_strlit("-//cce//cce-calendar-sync//EN");
    reveal_strlit("UID");
    reveal_strlit("UID:");
    reveal_strlit("DTSTAMP");
    reveal_strlit("DTSTAMP:");
    reveal_strlit("CREATED");
    reveal_strlit("CREATED:");
    reveal_strlit("SUMMARY");
    reveal_strlit("SUMMARY:");
    reveal_strlit("END");
    reveal_strlit("END:VEVENT");
    reveal_strlit("END:VCALENDAR");
    assert("BEGIN:VCALENDAR"@ =~= "BEGIN"@.push(':') + "VCALENDAR"@);
    assert("VERSION:2.0"@ =~= "VERSION"@.push(':') + "2.0"@);
    assert("PRODID:-//cce//cce-calendar-sync//EN"@ =~= "PRODID"@.push(':')
        + "-//cce//cce-calendar-sync//EN"@);
    assert("BEGIN:VEVENT"@ =~= "BEGIN"@.push(':') + "VEVENT"@);
    assert("UID:"@ =~= "UID"@.push(':'));
    assert("DTSTAMP:"@ =~= "DTSTAMP"@.push(':'));
    assert("CREATED:"@ =~= "CREATED"@.push(':'));
    assert("SUMMARY:"@ =~= "SUMMARY"@.push(':'));
    assert("END:VEVENT"@ =~= "END"@.push(':') + "VEVENT"@);
    assert("END:VCALENDAR"@ =~= "END"@.push(':') + "VCALENDAR"@);
    lemma_property("BEGIN"@, "BEGIN"@.push(':'), "VCALENDAR"@);
    lemma_property("VERSION"@, "VERSION"@.push(':'), "2.0"@);
    lemma_property("PRODID"@, "PRODID"@.push(':'), "-//cce//cce-calendar-sync//EN"@);
    lemma_property("BEGIN"@, "BEGIN"@.push(':'), "VEVENT"@);
    lemma_property("UID"@, "UID:"@, uid);
    lemma_property("DTSTAMP"@, "DTSTAMP:"@, stamp);
    lemma_property("CREATED"@, "CREATED:"@, stamp);
    lemma_property("SUMMARY"@, "SUMMARY:"@, title);
    lemma_property("END"@, "END"@.push(':'), "VEVENT"@);
    lemma_property("END"@, "END"@.push(':'), "VCALENDAR"@);
    assert(crate::text::lower("VCALENDAR"@).len() == 9);
    assert(crate::text::lower("VEVENT"@).len() == 6);
    assert("VERSION"@.len() == 7 && "PRODID"@.len() == 6 && "END"@.len() == 3 && "BEGIN"@.len()
        == 5);
}

/// What the lines of a new event read as, whatever stands in the lines of its span.
proof fn lemma_new_event(
    uid: Seq<char>,
    now: Moment,
    start: (Seq<char>, Seq<char>),
    end: (Seq<char>, Seq<char>),
    title: Seq<char>,
)
    requires
        is_plain_head(start.0),
        is_plain_head(end.0),
        crate::ics::head_name(start.0) == "DTSTART"@,
        crate::ics::head_name(end.0) == "DTEND"@,
    ensures
        ({
            let span = (start.0 + seq![':'] + start.1, end.0 + seq![':'] + end.1);
            let lines = crate::vevent::new_event_lines(uid, now, span, title);
            &&& crate::ics::events_in(lines).0 == seq![
                crate::ics::VEventView {
                    uid: crate::text::trimmed(uid),
                    summary: crate::ics::unescaped(
                        crate::text::trimmed(crate::ics::escaped(title)),
                    ),
                    dtstart: crate::ics::dt_read(start.0, start.1),
                    dtend: crate::ics::dt_read(end.0, end.1),
                    ..crate::ics::blank_event()
                },
            ]
            &&& crate::ics::events_in(lines.take(7)).1 is Some
            &&& crate::ics::events_in(lines.take(8)).1 is Some
        }),
{
    let span = (start.0 + seq![':'] + start.1, end.0 + seq![':'] + end.1);
    let lines = crate::vevent::new_event_lines(uid, now, span, title);
    let stamp = crate::date::stamp_text(now) + seq!['Z'];
    lemma_names_differ();
    lemma_fixed_lines(uid, stamp, crate::ics::escaped(title));
    lemma_content_line(start.0, start.1);
    lemma_content_line(end.0, end.1);
    let none = (Seq::<crate::ics::VEventView>::empty(), None::<crate::ics::VEventView>);
    let blank = crate::ics::blank_event();
    let named = crate::ics::VEventView { uid: crate::text::trimmed(uid), ..blank };
    let begun = crate::ics::VEventView {
        dtstart: crate::ics::dt_read(start.0, start.1),
        ..named
    };
    let ended = crate::ics::VEventView { dtend: crate::ics::dt_read(end.0, end.1), ..begun };
    let titled = crate::ics::VEventView {
        summary: crate::ics::unescaped(crate::text::trimmed(crate::ics::escaped(title))),
        ..ended
    };
    assert(lines.take(0) =~= Seq::empty());
    lemma_next_line(lines, 0);
    lemma_next_line(lines, 1);
    lemma_next_line(lines, 2);
    assert(crate::ics::events_in(lines.take(3)) == none);
    lemma_next_line(lines, 3);
    assert(crate::ics::events_in(lines.take(4)) == (none.0, Some(blank)));
    lemma_next_line(lines, 4);
    assert(crate::ics::events_in(lines.take(5)) == (none.0, Some(named)));
    lemma_next_line(lines, 5);
    assert(crate::ics::events_in(lines.take(6)) == (none.0, Some(named)));
    lemma_next_line(lines, 6);
    assert(crate::ics::events_in(lines.take(7)) == (none.0, Some(named)));
    lemma_next_line(lines, 7);
    assert(crate::ics::events_in(lines.take(8)) == (none.0, Some(begun)));
    lemma_next_line(lines, 8);
    assert(crate::ics::events_in(lines.take(9)) == (none.0, Some(ended)));
    lemma_next_line(lines, 9);
    assert(crate::ics::events_in(lines.take(10)) == (none.0, Some(titled)));
    lemma_next_line(lines, 10);
    assert(crate::ics::events_in(lines.take(11)) == (
        none.0.push(titled),
        None::<crate::ics::VEventView>,
    ));
    lemma_next_line(lines, 11);
    assert(lines.take(12) =~= lines);
    assert(none.0.push(titled) =~= seq![titled]);
}

// ── New events ────────────────────────────────────────────────────────────

/// Whether an identity and a title can stand in an event as they are: neither begins or ends
/// with white space, and the identity takes one line.
pub open spec fn can_be_written(uid: Seq<char>, title: Seq<char>) -> bool {
    &&& crate::text::trimmed(uid) == uid
    &&& !uid.contains('\n')
    &&& crate::text::trimmed(title) == title
}

/// Whether a text was written as a new event that takes a whole day.
pub open spec fn is_new_day(
    text: Seq<char>,
    uid: Seq<char>,
    date: Date,
    title: Seq<char>,
) -> bool {
    &&& can_be_written(uid, title)
    &&& crate::date::valid_date(date)
    &&& 0 <= date.year <= 9999
    &&& crate::date::next_date(date).year <= 9999
    &&& exists|now: Moment| #[trigger]
        crate::date::valid_moment(now) && text == crate::vevent::lines_text(
            crate::vevent::new_event_lines(
                uid,
                now,
                crate::vevent::day_lines(date, crate::date::next_date(date)),
                title,
            ),
        )
}

/// The event that takes a whole day.
pub open spec fn day_event(uid: Seq<char>, date: Date, title: Seq<char>) -> crate::ics::VEventView {
    crate::ics::VEventView {
        uid,
        summary: crate::ics::on_one_line(title),
        dtstart: Some(crate::ics::DtView::Date(date)),
        dtend: Some(crate::ics::DtView::Date(crate::date::next_date(date))),
        ..crate::ics::blank_event()
    }
}

/// Whether a text was written as a new event from one instant to another.
pub open spec fn is_new_timed(
    text: Seq<char>,
    uid: Seq<char>,
    start: Moment,
    end: Moment,
    title: Seq<char>,
) -> bool {
    &&& can_be_written(uid, title)
    &&& crate::date::valid_moment(start)
    &&& crate::date::valid_moment(end)
    &&& 0 <= start.date.year <= 9999
    &&& 0 <= end.date.year <= 9999
    &&& exists|now: Moment| #[trigger]
        crate::date::valid_moment(now) && text == crate::vevent::lines_text(
            crate::vevent::new_event_lines(
                uid,
                now,
                crate::vevent::instant_lines(start, end),
                title,
            ),
        )
}

/// The event from one instant to another.
pub open spec fn timed_event(
    uid: Seq<char>,
    start: Moment,
    end: Moment,
    title: Seq<char>,
) -> crate::ics::VEventView {
    crate::ics::VEventView {
        uid,
        summary: crate::ics::on_one_line(title),
        dtstart: Some(crate::ics::DtView::Utc(start)),
        dtend: Some(crate::ics::DtView::Utc(end)),
        ..crate::ics::blank_event()
    }
}

/// A title without white space around it is written without white space around it.
proof fn lemma_escaped_trimmed(title: Seq<char>)
    requires
        crate::text::trimmed(title) == title,
    ensures
        crate::text::trimmed(crate::ics::escaped(title)) == crate::ics::escaped(title),
        crate::ics::escaped(title).len() > 0 ==> !crate::text::is_white_space(
            crate::ics::escaped(title).last(),
        ),
{
    let e = crate::ics::escaped(title);
    crate::text::lemma_trimmed_ends(title);
    if title.len() > 0 {
        lemma_escaped_first(title);
        let last = crate::ics::escaped_char(title.last());
        assert(e.last() == last.last());
        assert(!crate::text::is_white_space(e[0]));
        assert(!crate::text::is_white_space(e.last()));
    }
    crate::text::lemma_trimmed(e);
}

proof fn lemma_escaped_first(title: Seq<char>)
    requires
        title.len() > 0,
    ensures
        crate::ics::escaped(title).len() > 0,
        crate::ics::escaped(title)[0] == crate::ics::escaped_char(title[0])[0],
    decreases title.len(),
{
    let before = crate::ics::escaped(title.drop_last());
    if title.len() > 1 {
        lemma_escaped_first(title.drop_last());
        assert(crate::ics::escaped(title)[0] == before[0]);
    } else {
        assert(title.drop_last() =~= Seq::empty());
        assert(crate::ics::escaped(title) =~= crate::ics::escaped_char(title[0]));
    }
}

/// A stamp holds no line feed.
proof fn lemma_stamp_line(m: Moment)
    requires
        crate::date::valid_moment(m),
    ensures
        !crate::date::stamp_text(m).contains('\n'),
{
    let y = m.date.year as int;
    crate::text::lemma_padded_digits(y as nat, 4);
    crate::text::lemma_padded_digits((-y) as nat, 4);
    let s = crate::date::stamp_text(m);
    let year = crate::date::year_text(y);
    assert forall|i: int| 0 <= i < year.len() implies year[i] != '\n' by {
        if 0 <= y <= 9999 {
            assert(crate::text::is_digit(year[i]));
        } else if i > 0 {
            if y < 0 {
                assert(year[i] == crate::text::padded((-y) as nat, 4)[i - 1]);
            } else {
                assert(year[i] == crate::text::padded(y as nat, 4)[i - 1]);
            }
        }
    }
    crate::text::lemma_two_digits(m.date.month);
    crate::text::lemma_two_digits(m.date.day);
    crate::text::lemma_two_digits(m.hour);
    crate::text::lemma_two_digits(m.minute);
    crate::text::lemma_two_digits(m.second);
    let n = year.len() as int;
    assert forall|i: int| 0 <= i < s.len() implies s[i] != '\n' by {
        if i < n {
            assert(s[i] == year[i]);
        } else if i < n + 2 {
            assert(s[i] == crate::text::padded(m.date.month as nat, 2)[i - n]);
        } else if i < n + 4 {
            assert(s[i] == crate::text::padded(m.date.day as nat, 2)[i - n - 2]);
        } else if i == n + 4 {
            assert(s[i] == 'T');
        } else if i < n + 7 {
            assert(s[i] == crate::text::padded(m.hour as nat, 2)[i - n - 5]);
        } else if i < n + 9 {
            assert(s[i] == crate::text::padded(m.minute as nat, 2)[i - n - 7]);
        } else {
            assert(s[i] == crate::text::padded(m.second as nat, 2)[i - n - 9]);
        }
    }
}

/// Whether a text can be the rest of a line: it holds no line feed.
spec fn is_plain_rest(rest: Seq<char>) -> bool {
    !rest.contains('\n')
}

proof fn lemma_plain_line(start: Seq<char>, rest: Seq<char>)
    requires
        is_plain_line(start),
        is_plain_rest(rest),
    ensures
        is_plain_line(start + rest),
{
    let line = start + rest;
    assert forall|i: int| 0 <= i < line.len() implies line[i] != '\n' by {
        if i < start.len() {
            assert(start.contains(start[i]));
        } else {
            assert(rest.contains(rest[i - start.len()]));
        }
    }
    assert(line[0] == start[0]);
}

/// The lines of a new event are such that unfolding leaves them as they are.
proof fn lemma_new_event_plain(
    uid: Seq<char>,
    now: Moment,
    span: (Seq<char>, Seq<char>),
    title: Seq<char>,
)
    requires
        can_be_written(uid, title),
        crate::date::valid_moment(now),
        is_plain_line(span.0),
        is_plain_line(span.1),
    ensures
        crate::ics::logical_lines(
            crate::vevent::lines_text(crate::vevent::new_event_lines(uid, now, span, title)),
        ) == crate::vevent::new_event_lines(uid, now, span, title),
{
    let lines = crate::vevent::new_event_lines(uid, now, span, title);
    let stamp = crate::date::stamp_text(now) + seq!['Z'];
    let text = crate::ics::escaped(title);
    reveal_strlit("BEGIN:VCALENDAR");
    reveal_strlit("VERSION:2.0");
    reveal_strlit("PRODID:-//cce//cce-calendar-sync//EN");
    reveal_strlit("BEGIN:VEVENT");
    reveal_strlit("UID:");
    reveal_strlit("DTSTAMP:");
    reveal_strlit("CREATED:");
    reveal_strlit("SUMMARY:");
    reveal_strlit("END:VEVENT");
    reveal_strlit("END:VCALENDAR");
    lemma_stamp_rest(now);
    crate::text::lemma_trimmed_ends(uid);
    lemma_escaped_trimmed(title);
    crate::ics::law_text_values_take_one_line(title);
    assert(is_plain_rest(uid));
    assert(is_plain_rest(text));
    lemma_plain_line("UID:"@, uid);
    lemma_plain_line("DTSTAMP:"@, stamp);
    lemma_plain_line("CREATED:"@, stamp);
    lemma_plain_line("SUMMARY:"@, text);
    assert forall|i: int| 0 <= i < lines.len() implies is_plain_line(#[trigger] lines[i]) by {}
    law_lines_read_back(lines);
}

/// A date in digits holds no line feed.
proof fn lemma_compact_line(d: Date)
    ensures
        !crate::date::compact_text(d).contains('\n'),
{
    let y = d.year as int;
    crate::text::lemma_padded_digits(y as nat, 4);
    crate::text::lemma_padded_digits((-y) as nat, 4);
    crate::text::lemma_padded_digits(d.month as nat, 2);
    crate::text::lemma_padded_digits(d.day as nat, 2);
    let s = crate::date::compact_text(d);
    let year = crate::date::year_text(y);
    let (m, n) = (crate::text::padded(d.month as nat, 2), crate::text::padded(d.day as nat, 2));
    assert forall|i: int| 0 <= i < s.len() implies s[i] != '\n' by {
        if i < year.len() {
            assert(s[i] == year[i]);
            if y < 0 {
                if i > 0 {
                    assert(year[i] == crate::text::padded((-y) as nat, 4)[i - 1]);
                }
            } else if y > 9999 {
                if i > 0 {
                    assert(year[i] == crate::text::padded(y as nat, 4)[i - 1]);
                }
            } else {
                assert(year[i] == crate::text::padded(y as nat, 4)[i]);
            }
        } else if i < year.len() + m.len() {
            assert(s[i] == m[i - year.len()]);
        } else {
            assert(s[i] == n[i - year.len() - m.len()]);
        }
    }
}

/// Whether two lines are plain, and say when an event starts and ends.
pub open spec fn are_plain_dt_lines(span: (Seq<char>, Seq<char>)) -> bool {
    &&& is_plain_line(span.0)
    &&& is_plain_line(span.1)
    &&& crate::ics::is_content_line(span.0)
    &&& crate::ics::is_content_line(span.1)
    &&& crate::ics::line_name(span.0) == "DTSTART"@
    &&& crate::ics::line_name(span.1) == "DTEND"@
}

proof fn lemma_day_lines(date: Date, next: Date)
    ensures
        are_plain_dt_lines(crate::vevent::day_lines(date, next)),
{
    reveal_strlit("DTSTART;VALUE=DATE");
    reveal_strlit("DTSTART;VALUE=DATE:");
    reveal_strlit("DTEND;VALUE=DATE");
    reveal_strlit("DTEND;VALUE=DATE:");
    reveal_strlit("DTSTART");
    reveal_strlit("DTEND");
    let span = crate::vevent::day_lines(date, next);
    let (a, b) = (crate::date::compact_text(date), crate::date::compact_text(next));
    let (start, end) = ("DTSTART;VALUE=DATE"@, "DTEND;VALUE=DATE"@);
    lemma_compact_line(date);
    lemma_compact_line(next);
    lemma_plain_line("DTSTART;VALUE=DATE:"@, a);
    lemma_plain_line("DTEND;VALUE=DATE:"@, b);
    assert(span.0 =~= start + seq![':'] + a);
    assert(span.1 =~= end + seq![':'] + b);
    crate::text::lemma_find_is(start, ';', 7);
    crate::text::lemma_find_is(end, ';', 5);
    assert(crate::text::upper(start.take(7)) =~= "DTSTART"@);
    assert(crate::text::upper(end.take(5)) =~= "DTEND"@);
    lemma_content_line(start, a);
    lemma_content_line(end, b);
}

proof fn lemma_instant_lines(start: Moment, end: Moment)
    requires
        crate::date::valid_moment(start),
        crate::date::valid_moment(end),
    ensures
        are_plain_dt_lines(crate::vevent::instant_lines(start, end)),
{
    reveal_strlit("DTSTART");
    reveal_strlit("DTSTART:");
    reveal_strlit("DTEND");
    reveal_strlit("DTEND:");
    let span = crate::vevent::instant_lines(start, end);
    let (p, q) = ("DTSTART"@, "DTEND"@);
    let (a, b) = (
        crate::date::stamp_text(start) + seq!['Z'],
        crate::date::stamp_text(end) + seq!['Z'],
    );
    lemma_stamp_rest(start);
    lemma_stamp_rest(end);
    lemma_plain_line("DTSTART:"@, a);
    lemma_plain_line("DTEND:"@, b);
    assert(span.0 =~= "DTSTART:"@ + a);
    assert(span.1 =~= "DTEND:"@ + b);
    assert(span.0 =~= p + seq![':'] + a);
    assert(span.1 =~= q + seq![':'] + b);
    lemma_plain_name(p);
    lemma_plain_name(q);
    lemma_content_line(p, a);
    lemma_content_line(q, b);
}

/// The lines of the span of a record are plain, and say when an event starts and ends.
pub proof fn lemma_span_lines(r: crate::record::RecordView, span: (Seq<char>, Seq<char>))
    requires
        crate::vevent::are_span_lines(r, span),
    ensures
        are_plain_dt_lines(span),
{
    match crate::when::record_when(r) {
        Err(_) => {},
        Ok((date, None)) => {
            lemma_day_lines(date, crate::date::next_date(date));
        },
        Ok((_, Some(_))) => {
            let local = crate::when::record_start(r)->Ok_0;
            let at = choose|at: crate::when::Span| #[trigger]
                crate::when::spans(at, local) && span == crate::vevent::instant_lines(
                    at.start,
                    at.end,
                ) && crate::when::record_start(r) is Ok;
            lemma_instant_lines(at.start, at.end);
        },
    }
}

/// A stamp in UTC holds no line feed.
proof fn lemma_stamp_rest(m: Moment)
    requires
        crate::date::valid_moment(m),
    ensures
        is_plain_rest(crate::date::stamp_text(m) + seq!['Z']),
{
    let a = crate::date::stamp_text(m) + seq!['Z'];
    lemma_stamp_line(m);
    assert forall|i: int| 0 <= i < a.len() implies a[i] != '\n' by {
        if i < a.len() - 1 {
            assert(crate::date::stamp_text(m).contains(a[i]));
        }
    }
}

/// A text that was written as a new event of a whole day holds that event.
pub proof fn lemma_new_day(text: Seq<char>, uid: Seq<char>, date: Date, title: Seq<char>)
    requires
        is_new_day(text, uid, date, title),
        crate::ics::values_read_back(crate::ics::logical_lines(text)),
    ensures
        crate::ics::events_in(crate::ics::logical_lines(text)).0 == seq![
            day_event(uid, date, title),
        ],
{
    let next = crate::date::next_date(date);
    let now = choose|now: Moment| #[trigger]
        crate::date::valid_moment(now) && text == crate::vevent::lines_text(
            crate::vevent::new_event_lines(
                uid,
                now,
                crate::vevent::day_lines(date, next),
                title,
            ),
        );
    let span = crate::vevent::day_lines(date, next);
    let lines = crate::vevent::new_event_lines(uid, now, span, title);
    let (start, end) = ("DTSTART;VALUE=DATE"@, "DTEND;VALUE=DATE"@);
    reveal_strlit("DTSTART;VALUE=DATE");
    reveal_strlit("DTSTART;VALUE=DATE:");
    reveal_strlit("DTEND;VALUE=DATE");
    reveal_strlit("DTEND;VALUE=DATE:");
    reveal_strlit("DTSTART");
    reveal_strlit("DTEND");
    crate::date::lemma_next_date(date);
    crate::date::lemma_compact(date);
    crate::date::lemma_compact(next);
    let (a, b) = (crate::date::compact_text(date), crate::date::compact_text(next));
    assert(span.0 =~= start + seq![':'] + a);
    assert(span.1 =~= end + seq![':'] + b);
    assert(is_plain_rest(a) && is_plain_rest(b)) by {
        assert(crate::text::is_digit(a[7]) && crate::text::is_digit(b[7]));
        if a.contains('\n') {
            let i = choose|i: int| 0 <= i < a.len() && a[i] == '\n';
            assert(crate::text::is_digit(a[i]));
        }
        if b.contains('\n') {
            let i = choose|i: int| 0 <= i < b.len() && b[i] == '\n';
            assert(crate::text::is_digit(b[i]));
        }
    }
    lemma_plain_line("DTSTART;VALUE=DATE:"@, a);
    lemma_plain_line("DTEND;VALUE=DATE:"@, b);
    lemma_new_event_plain(uid, now, span, title);
    crate::text::lemma_find_is(start, ';', 7);
    crate::text::lemma_find_is(end, ';', 5);
    assert(crate::text::upper(start.take(7)) =~= "DTSTART"@);
    assert(crate::text::upper(end.take(5)) =~= "DTEND"@);
    lemma_new_event(uid, now, (start, a), (end, b), title);
    lemma_content_line(start, a);
    lemma_content_line(end, b);
    assert(crate::ics::is_dt_line(lines[7]) && crate::ics::is_dt_line(lines[8]));
    assert(crate::ics::reads_back(
        crate::ics::line_head(lines[7]),
        crate::ics::line_value(lines[7]),
    ));
    assert(crate::ics::reads_back(
        crate::ics::line_head(lines[8]),
        crate::ics::line_value(lines[8]),
    ));
    lemma_escaped_trimmed(title);
    crate::ics::law_text_values_read_back(title);
}

/// A text that was written as a new event from one instant to another holds that event.
pub proof fn lemma_new_timed(
    text: Seq<char>,
    uid: Seq<char>,
    start: Moment,
    end: Moment,
    title: Seq<char>,
)
    requires
        is_new_timed(text, uid, start, end, title),
        crate::ics::values_read_back(crate::ics::logical_lines(text)),
    ensures
        crate::ics::events_in(crate::ics::logical_lines(text)).0 == seq![
            timed_event(uid, start, end, title),
        ],
{
    let span = crate::vevent::instant_lines(start, end);
    let now = choose|now: Moment| #[trigger]
        crate::date::valid_moment(now) && text == crate::vevent::lines_text(
            crate::vevent::new_event_lines(uid, now, span, title),
        );
    let lines = crate::vevent::new_event_lines(uid, now, span, title);
    let (p, q) = ("DTSTART"@, "DTEND"@);
    reveal_strlit("DTSTART");
    reveal_strlit("DTSTART:");
    reveal_strlit("DTEND");
    reveal_strlit("DTEND:");
    let (a, b) = (
        crate::date::stamp_text(start) + seq!['Z'],
        crate::date::stamp_text(end) + seq!['Z'],
    );
    assert(span.0 =~= p + seq![':'] + a);
    assert(span.1 =~= q + seq![':'] + b);
    lemma_stamp_rest(start);
    lemma_stamp_rest(end);
    lemma_plain_line("DTSTART:"@, a);
    lemma_plain_line("DTEND:"@, b);
    assert(span.0 =~= "DTSTART:"@ + a);
    assert(span.1 =~= "DTEND:"@ + b);
    lemma_new_event_plain(uid, now, span, title);
    lemma_plain_name(p);
    lemma_plain_name(q);
    lemma_new_event(uid, now, (p, a), (q, b), title);
    lemma_content_line(p, a);
    lemma_content_line(q, b);
    assert(crate::ics::is_dt_line(lines[7]) && crate::ics::is_dt_line(lines[8]));
    lemma_no_params(p);
    lemma_no_params(q);
    assert(crate::ics::reads_back(
        crate::ics::line_head(lines[7]),
        crate::ics::line_value(lines[7]),
    ));
    assert(crate::ics::reads_back(
        crate::ics::line_head(lines[8]),
        crate::ics::line_value(lines[8]),
    ));
    lemma_escaped_trimmed(title);
    crate::ics::law_text_values_read_back(title);
}

/// A head that is a name has no parameters.
proof fn lemma_no_params(name: Seq<char>)
    requires
        is_plain_name(name),
    ensures
        !crate::ics::date_param(crate::ics::params(name)),
{
    crate::text::lemma_find_is(name, ';', name.len() as int);
    assert(crate::text::split_on(name, ';') =~= seq![name]);
}

} // verus!
