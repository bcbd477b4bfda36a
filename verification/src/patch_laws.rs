//! What changing an event keeps.
use vstd::prelude::*;

verus! {

/// Where the lines of the first event begin and end: the place of its first line, and that of
/// the line that closes it, counted from the line after.
pub open spec fn begin_of(lines: Seq<Seq<char>>) -> int {
    crate::vevent::event_start(lines)
}

/// The lines inside the first event.
pub open spec fn inner_of(lines: Seq<Seq<char>>) -> Seq<Seq<char>> {
    let body = lines.skip(begin_of(lines) + 1);
    body.take(crate::vevent::event_end(body))
}

/// The lines from the one that closes the first event on.
pub open spec fn rest_of(lines: Seq<Seq<char>>) -> Seq<Seq<char>> {
    let body = lines.skip(begin_of(lines) + 1);
    body.skip(crate::vevent::event_end(body))
}

/// Whether two lines say when an event starts and ends.
pub open spec fn are_dt_lines(span: (Seq<char>, Seq<char>)) -> bool {
    &&& crate::ics::is_content_line(span.0)
    &&& crate::ics::line_name(span.0) == "DTSTART"@
    &&& crate::ics::is_content_line(span.1)
    &&& crate::ics::line_name(span.1) == "DTEND"@
}

pub proof fn lemma_event_end(lines: Seq<Seq<char>>)
    ensures
        0 <= crate::vevent::event_end(lines) <= lines.len(),
        forall|i: int|
            0 <= i < crate::vevent::event_end(lines) ==> !crate::ics::ends_event(
                #[trigger] lines[i],
            ),
        crate::vevent::event_end(lines) < lines.len() ==> crate::ics::ends_event(
            lines[crate::vevent::event_end(lines)],
        ),
    decreases lines.len(),
{
    if lines.len() > 0 && !crate::ics::ends_event(lines[0]) {
        let rest = lines.drop_first();
        lemma_event_end(rest);
        assert forall|i: int| 0 <= i < crate::vevent::event_end(lines) implies !crate::ics::ends_event(
            #[trigger] lines[i],
        ) by {
            if i > 0 {
                assert(rest[i - 1] == lines[i]);
            }
        }
    }
}

proof fn lemma_event_end_is(lines: Seq<Seq<char>>, k: int)
    requires
        0 <= k < lines.len(),
        forall|i: int| 0 <= i < k ==> !crate::ics::ends_event(#[trigger] lines[i]),
        crate::ics::ends_event(lines[k]),
    ensures
        crate::vevent::event_end(lines) == k,
{
    lemma_event_end(lines);
    let e = crate::vevent::event_end(lines);
    if e < k {
        assert(crate::ics::ends_event(lines[e]));
    } else if k < e {
        assert(!crate::ics::ends_event(lines[k]));
    }
}

pub proof fn lemma_event_start(lines: Seq<Seq<char>>)
    ensures
        0 <= crate::vevent::event_start(lines) <= lines.len(),
        forall|i: int|
            0 <= i < crate::vevent::event_start(lines) ==> !crate::ics::begins_event(
                #[trigger] lines[i],
            ),
        crate::vevent::event_start(lines) < lines.len() ==> crate::ics::begins_event(
            lines[crate::vevent::event_start(lines)],
        ),
    decreases lines.len(),
{
    if lines.len() > 0 && !crate::ics::begins_event(lines[0]) {
        let rest = lines.drop_first();
        lemma_event_start(rest);
        assert forall|i: int|
            0 <= i < crate::vevent::event_start(lines) implies !crate::ics::begins_event(
            #[trigger] lines[i],
        ) by {
            if i > 0 {
                assert(rest[i - 1] == lines[i]);
            }
        }
    }
}

proof fn lemma_event_start_is(lines: Seq<Seq<char>>, k: int)
    requires
        0 <= k < lines.len(),
        forall|i: int| 0 <= i < k ==> !crate::ics::begins_event(#[trigger] lines[i]),
        crate::ics::begins_event(lines[k]),
    ensures
        crate::vevent::event_start(lines) == k,
{
    lemma_event_start(lines);
    let e = crate::vevent::event_start(lines);
    if e < k {
        assert(crate::ics::begins_event(lines[e]));
    } else if k < e {
        assert(!crate::ics::begins_event(lines[k]));
    }
}

/// A property that is replaced neither opens nor closes a component.
proof fn lemma_replaced_is_neutral(line: Seq<char>, name: Seq<char>)
    requires
        crate::vevent::is_replaced(crate::ics::line_name(line)),
    ensures
        !crate::vevent::opens(line, name),
        !crate::vevent::closes(line, name),
{
    crate::ics_laws::lemma_names_differ();
    reveal_strlit("DURATION");
}

/// What is kept of the first lines inside an event is some of them, begins what is kept of all,
/// and has the same components open behind it.
proof fn lemma_kept_among(inner: Seq<Seq<char>>, n: int)
    requires
        0 <= n <= inner.len(),
    ensures
        crate::vevent::kept_among(inner, n).len() <= crate::vevent::kept(inner).len(),
        crate::vevent::kept(inner).take(crate::vevent::kept_among(inner, n).len() as int)
            == crate::vevent::kept_among(inner, n),
        forall|i: int|
            0 <= i < crate::vevent::kept_among(inner, n).len() ==> inner.contains(
                #[trigger] crate::vevent::kept_among(inner, n)[i],
            ),
        forall|name: Seq<char>| #[trigger]
            crate::vevent::open_count(crate::vevent::kept_among(inner, n), name)
                == crate::vevent::open_count(inner.take(n), name),
    decreases n,
{
    let k = crate::vevent::kept_among(inner, n);
    lemma_kept_begins(inner, n, inner.len() as int);
    if n > 0 {
        lemma_kept_among(inner, n - 1);
        let before = crate::vevent::kept_among(inner, n - 1);
        let last = inner[n - 1];
        assert(inner.take(n).drop_last() =~= inner.take(n - 1));
        assert forall|i: int| 0 <= i < k.len() implies inner.contains(#[trigger] k[i]) by {
            if i < before.len() {
                assert(k[i] == before[i]);
            } else {
                assert(inner[n - 1] == k[i]);
            }
        }
        assert forall|name: Seq<char>| #[trigger]
            crate::vevent::open_count(k, name) == crate::vevent::open_count(
                inner.take(n),
                name,
            ) by {
            assert(crate::vevent::open_count(before, name) == crate::vevent::open_count(
                inner.take(n - 1),
                name,
            ));
            if crate::vevent::is_kept(inner, n - 1) {
                assert(k.drop_last() =~= before);
            } else {
                lemma_replaced_is_neutral(last, name);
            }
        }
    } else {
        assert(k =~= inner.take(n));
    }
}

/// What is kept of fewer lines begins what is kept of more.
proof fn lemma_kept_begins(inner: Seq<Seq<char>>, n: int, m: int)
    requires
        0 <= n <= m <= inner.len(),
    ensures
        crate::vevent::kept_among(inner, n).len() <= crate::vevent::kept_among(inner, m).len(),
        crate::vevent::kept_among(inner, m).take(crate::vevent::kept_among(inner, n).len() as int)
            == crate::vevent::kept_among(inner, n),
    decreases m - n,
{
    let a = crate::vevent::kept_among(inner, n);
    let b = crate::vevent::kept_among(inner, m);
    if n < m {
        lemma_kept_begins(inner, n, m - 1);
        assert(b.take(a.len() as int) =~= crate::vevent::kept_among(inner, m - 1).take(
            a.len() as int,
        ));
    } else {
        assert(b.take(a.len() as int) =~= a);
    }
}

/// Lines that are replaced, behind others, close nothing.
proof fn lemma_neutral_tail(lines: Seq<Seq<char>>, tail: Seq<Seq<char>>, name: Seq<char>)
    requires
        forall|i: int|
            0 <= i < tail.len() ==> crate::vevent::is_replaced(
                crate::ics::line_name(#[trigger] tail[i]),
            ),
    ensures
        crate::vevent::closed_count(lines + tail, name) == crate::vevent::closed_count(
            lines,
            name,
        ),
    decreases lines.len(), tail.len(),
{
    let all = lines + tail;
    if lines.len() > 0 {
        assert(all.drop_first() =~= lines.drop_first() + tail);
        lemma_neutral_tail(lines.drop_first(), tail, name);
    } else if tail.len() > 0 {
        assert(all =~= tail);
        assert(tail.drop_first() =~= lines + tail.drop_first());
        let rest = tail.drop_first();
        assert forall|i: int| 0 <= i < rest.len() implies crate::vevent::is_replaced(
            crate::ics::line_name(#[trigger] rest[i]),
        ) by {
            assert(rest[i] == tail[i + 1]);
        }
        lemma_neutral_tail(lines, rest, name);
        lemma_replaced_is_neutral(tail[0], name);
    }
}

/// What is kept behind some of the lines inside an event closes what those lines close.
proof fn lemma_kept_behind(inner: Seq<Seq<char>>, n: int, name: Seq<char>)
    requires
        0 <= n <= inner.len(),
    ensures
        crate::vevent::closed_count(
            crate::vevent::kept(inner).skip(crate::vevent::kept_among(inner, n).len() as int),
            name,
        ) == crate::vevent::closed_count(inner.skip(n), name),
    decreases inner.len() - n,
{
    let kept = crate::vevent::kept(inner);
    let k = crate::vevent::kept_among(inner, n);
    lemma_kept_among(inner, n);
    if n < inner.len() {
        lemma_kept_behind(inner, n + 1, name);
        lemma_kept_among(inner, n + 1);
        let longer = crate::vevent::kept_among(inner, n + 1);
        assert(inner.skip(n).drop_first() =~= inner.skip(n + 1));
        if crate::vevent::is_kept(inner, n) {
            assert(longer == k.push(inner[n]));
            assert(kept.take(longer.len() as int)[k.len() as int] == inner[n]);
            assert(kept.skip(k.len() as int).drop_first() =~= kept.skip(longer.len() as int));
        } else {
            lemma_replaced_is_neutral(inner[n], name);
        }
    } else {
        assert(kept.skip(k.len() as int) =~= inner.skip(n));
    }
}

/// What is kept of the lines inside an event, with replaced lines behind it, is kept again, and
/// no more.
proof fn lemma_kept_again(inner: Seq<Seq<char>>, added: Seq<Seq<char>>)
    requires
        forall|i: int|
            0 <= i < added.len() ==> crate::vevent::is_replaced(
                crate::ics::line_name(#[trigger] added[i]),
            ),
    ensures
        crate::vevent::kept(crate::vevent::kept(inner) + added) == crate::vevent::kept(inner),
{
    let kept = crate::vevent::kept(inner);
    let again = kept + added;
    lemma_kept_again_among(inner, added, inner.len() as int);
    lemma_added_go(kept, added, again.len() as int);
}

/// Of what was kept of the first lines all is kept again.
proof fn lemma_kept_again_among(inner: Seq<Seq<char>>, added: Seq<Seq<char>>, n: int)
    requires
        0 <= n <= inner.len(),
        forall|i: int|
            0 <= i < added.len() ==> crate::vevent::is_replaced(
                crate::ics::line_name(#[trigger] added[i]),
            ),
    ensures
        crate::vevent::kept_among(
            crate::vevent::kept(inner) + added,
            crate::vevent::kept_among(inner, n).len() as int,
        ) == crate::vevent::kept_among(inner, n),
    decreases n,
{
    let kept = crate::vevent::kept(inner);
    let again = kept + added;
    if n > 0 {
        let before = crate::vevent::kept_among(inner, n - 1);
        let k = crate::vevent::kept_among(inner, n);
        lemma_kept_again_among(inner, added, n - 1);
        lemma_kept_among(inner, n - 1);
        lemma_kept_among(inner, n);
        let at = before.len() as int;
        if crate::vevent::is_kept(inner, n - 1) {
            assert(kept.take(k.len() as int)[at] == inner[n - 1]);
            assert(again[at] == inner[n - 1]);
            if crate::vevent::is_inside(inner, n - 1) {
                let name = choose|name: Seq<char>| #[trigger]
                    crate::vevent::is_within(inner, n - 1, name);
                assert(again.take(at) =~= before);
                lemma_kept_behind(inner, n, name);
                lemma_neutral_tail(kept.skip(at + 1), added, name);
                assert(again.skip(at + 1) =~= kept.skip(at + 1) + added);
                assert(crate::vevent::is_within(again, at, name));
            }
            assert(crate::vevent::is_kept(again, at));
        }
    }
}

/// Replaced lines at the end are not kept.
proof fn lemma_added_go(kept: Seq<Seq<char>>, added: Seq<Seq<char>>, n: int)
    requires
        kept.len() <= n <= kept.len() + added.len(),
        forall|i: int|
            0 <= i < added.len() ==> crate::vevent::is_replaced(
                crate::ics::line_name(#[trigger] added[i]),
            ),
    ensures
        crate::vevent::kept_among(kept + added, n) == crate::vevent::kept_among(
            kept + added,
            kept.len() as int,
        ),
    decreases n,
{
    let all = kept + added;
    if n > kept.len() {
        lemma_added_go(kept, added, n - 1);
        let at = n - 1;
        assert(all[at] == added[at - kept.len()]);
        if crate::vevent::is_inside(all, at) {
            let name = choose|name: Seq<char>| #[trigger] crate::vevent::is_within(all, at, name);
            let rest = all.skip(at + 1);
            let none = Seq::<Seq<char>>::empty();
            assert forall|i: int| 0 <= i < rest.len() implies crate::vevent::is_replaced(
                crate::ics::line_name(#[trigger] rest[i]),
            ) by {
                assert(rest[i] == added[at + 1 + i - kept.len()]);
            }
            lemma_neutral_tail(none, rest, name);
            assert(none + rest =~= rest);
        }
    }
}

/// The name of the line that holds a title.
proof fn lemma_summary_line(title: Seq<char>)
    ensures
        crate::ics::is_content_line("SUMMARY:"@ + title),
        crate::ics::line_name("SUMMARY:"@ + title) == "SUMMARY"@,
        crate::ics::line_value("SUMMARY:"@ + title) == title,
{
    reveal_strlit("SUMMARY");
    reveal_strlit("SUMMARY:");
    crate::ics_laws::lemma_content_line("SUMMARY"@, title);
    crate::text::lemma_find_is("SUMMARY"@, ';', 7);
    assert("SUMMARY"@.take(7) =~= "SUMMARY"@);
    assert(crate::text::upper("SUMMARY"@) =~= "SUMMARY"@);
    assert("SUMMARY:"@ + title =~= "SUMMARY"@ + seq![':'] + title);
}

/// Where the changed lines have their first event, and what is inside it.
proof fn lemma_patched(
    lines: Seq<Seq<char>>,
    title: Seq<char>,
    span: (Seq<char>, Seq<char>),
    out: Seq<Seq<char>>,
)
    requires
        crate::vevent::patched_lines(lines, title, span) == Some(out),
        are_dt_lines(span),
    ensures
        begin_of(out) == begin_of(lines),
        out.take(begin_of(lines) + 1) == lines.take(begin_of(lines) + 1),
        inner_of(out) == crate::vevent::kept(inner_of(lines)) + seq![
            "SUMMARY:"@ + crate::ics::escaped(title),
            span.0,
            span.1,
        ],
        rest_of(out) == rest_of(lines),
        rest_of(out).len() > 0,
        crate::vevent::has_event(out),
{
    let begin = begin_of(lines);
    let body = lines.skip(begin + 1);
    let end = crate::vevent::event_end(body);
    let inner = inner_of(lines);
    let added = seq!["SUMMARY:"@ + crate::ics::escaped(title), span.0, span.1];
    let now = crate::vevent::kept(inner) + added;
    lemma_event_start(lines);
    lemma_event_end(body);
    lemma_kept_among(inner, inner.len() as int);
    lemma_summary_line(crate::ics::escaped(title));
    crate::ics_laws::lemma_names_differ();
    assert(out =~= lines.take(begin + 1) + now + body.skip(end));
    assert forall|i: int| 0 <= i < begin implies !crate::ics::begins_event(#[trigger] out[i]) by {
        assert(out[i] == lines[i]);
    }
    assert(out[begin] == lines[begin]);
    lemma_event_start_is(out, begin);
    let next = out.skip(begin + 1);
    assert(next =~= now + body.skip(end));
    assert forall|i: int| 0 <= i < now.len() implies !crate::ics::ends_event(#[trigger] next[i]) by {
        if i < crate::vevent::kept(inner).len() {
            let l = crate::vevent::kept(inner)[i];
            assert(next[i] == l);
            assert(inner.contains(l));
            let j = choose|j: int| 0 <= j < inner.len() && inner[j] == l;
            assert(body[j] == l);
        } else {
            assert(next[i] == added[i - crate::vevent::kept(inner).len()]);
        }
    }
    assert(next[now.len() as int] == body[end]);
    lemma_event_end_is(next, now.len() as int);
    assert(next.take(now.len() as int) =~= now);
    assert(next.skip(now.len() as int) =~= body.skip(end));
    assert(out.take(begin + 1) =~= lines.take(begin + 1));
}

/// Whether the line at a place is not a property that is replaced when the first event is
/// changed: it stands outside the event or inside an inner component of it, or is another
/// property.
pub open spec fn is_foreign(lines: Seq<Seq<char>>, i: int) -> bool {
    let inner = inner_of(lines);
    let at = i - begin_of(lines) - 1;
    0 <= at < inner.len() ==> crate::vevent::is_kept(inner, at)
}

/// A line inside an event that stays is among those that are kept.
proof fn lemma_foreign_kept(inner: Seq<Seq<char>>, at: int)
    requires
        0 <= at < inner.len(),
        crate::vevent::is_kept(inner, at),
    ensures
        crate::vevent::kept(inner).contains(inner[at]),
{
    lemma_kept_among(inner, at + 1);
    let k = crate::vevent::kept_among(inner, at + 1);
    let kept = crate::vevent::kept(inner);
    assert(k.last() == inner[at]);
    assert(kept.take(k.len() as int)[k.len() - 1] == inner[at]);
}

/// Changing an event leaves every foreign line as it is: those outside the first event, those of
/// its inner components such as alarms, and its other properties.
pub proof fn law_foreign_lines_stay(
    lines: Seq<Seq<char>>,
    title: Seq<char>,
    span: (Seq<char>, Seq<char>),
    out: Seq<Seq<char>>,
    i: int,
)
    requires
        crate::vevent::patched_lines(lines, title, span) == Some(out),
        0 <= i < lines.len(),
        is_foreign(lines, i),
    ensures
        out.contains(lines[i]),
{
    let begin = begin_of(lines);
    let body = lines.skip(begin + 1);
    let end = crate::vevent::event_end(body);
    lemma_event_start(lines);
    lemma_event_end(body);
    let kept = crate::vevent::kept(inner_of(lines));
    if i <= begin {
        assert(out[i] == lines[i]);
    } else if i - begin - 1 < end {
        let at = i - begin - 1;
        assert(inner_of(lines)[at] == lines[i]);
        lemma_foreign_kept(inner_of(lines), at);
        let j = choose|j: int| 0 <= j < kept.len() && kept[j] == lines[i];
        assert(out[begin + 1 + j] == lines[i]);
    } else {
        let j = i - begin - 1 - end;
        assert(body.skip(end)[j] == lines[i]);
        assert(out[begin + 1 + kept.len() + 3 + j] == lines[i]);
    }
}

/// Of two changes of an event the second is all that counts.
pub proof fn law_last_change_wins(
    lines: Seq<Seq<char>>,
    first: (Seq<char>, (Seq<char>, Seq<char>)),
    second: (Seq<char>, (Seq<char>, Seq<char>)),
    out: Seq<Seq<char>>,
)
    requires
        are_dt_lines(first.1),
        crate::vevent::patched_lines(lines, first.0, first.1) == Some(out),
    ensures
        crate::vevent::patched_lines(out, second.0, second.1) == crate::vevent::patched_lines(
            lines,
            second.0,
            second.1,
        ),
{
    lemma_patched(lines, first.0, first.1, out);
    lemma_event_start(lines);
    lemma_event_end(lines.skip(begin_of(lines) + 1));
    lemma_summary_line(crate::ics::escaped(first.0));
    let added = seq![
        "SUMMARY:"@ + crate::ics::escaped(first.0),
        first.1.0,
        first.1.1,
    ];
    lemma_kept_again(inner_of(lines), added);
    let wanted = crate::vevent::patched_lines(lines, second.0, second.1);
    let again = crate::vevent::patched_lines(out, second.0, second.1);
    assert(again->0 =~= wanted->0);
}

/// Changed lines are lines that unfolding leaves as they are.
proof fn lemma_patched_plain(
    lines: Seq<Seq<char>>,
    title: Seq<char>,
    span: (Seq<char>, Seq<char>),
    out: Seq<Seq<char>>,
)
    requires
        crate::ics_laws::are_plain_lines(lines),
        crate::ics_laws::is_plain_line(span.0),
        crate::ics_laws::is_plain_line(span.1),
        crate::vevent::patched_lines(lines, title, span) == Some(out),
    ensures
        crate::ics_laws::are_plain_lines(out),
{
    let begin = begin_of(lines);
    let body = lines.skip(begin + 1);
    let end = crate::vevent::event_end(body);
    let inner = inner_of(lines);
    let kept = crate::vevent::kept(inner);
    let summary = "SUMMARY:"@ + crate::ics::escaped(title);
    let added = seq![summary, span.0, span.1];
    lemma_event_start(lines);
    lemma_event_end(body);
    lemma_kept_among(inner, inner.len() as int);
    reveal_strlit("SUMMARY:");
    crate::ics::law_text_values_take_one_line(title);
    assert(!summary.contains('\n')) by {
        assert forall|i: int| 0 <= i < summary.len() implies summary[i] != '\n' by {
            if i >= 8 {
                assert(crate::ics::escaped(title).contains(summary[i]));
            }
        }
    }
    assert forall|i: int| 0 <= i < out.len() implies crate::ics_laws::is_line(#[trigger] out[i])
        && (i > 0 ==> !crate::ics::is_continuation(out[i])) by {
        if i <= begin {
            assert(out[i] == lines[i]);
        } else if i < begin + 1 + kept.len() {
            let l = kept[i - begin - 1];
            assert(out[i] == l);
            assert(inner.contains(l));
            let j = choose|j: int| 0 <= j < inner.len() && inner[j] == l;
            assert(lines[begin + 1 + j] == l);
        } else if i < begin + 1 + kept.len() + 3 {
            assert(out[i] == added[i - begin - 1 - kept.len()]);
        } else {
            let j = i - (kept.len() + 3) + end;
            assert(out[i] == body.skip(end)[i - begin - 1 - kept.len() - 3]);
            assert(out[i] == lines[j]);
        }
    }
}

/// Of two changes of an event the second is all that counts, also where the first was written
/// and read again in between.
pub proof fn law_last_change_wins_in_text(
    lines: Seq<Seq<char>>,
    r: crate::record::RecordView,
    span: (Seq<char>, Seq<char>),
    second: (Seq<char>, (Seq<char>, Seq<char>)),
    out: Seq<Seq<char>>,
)
    requires
        crate::ics_laws::are_plain_lines(lines),
        crate::vevent::are_span_lines(r, span),
        crate::vevent::patched_lines(lines, r.title, span) == Some(out),
    ensures
        crate::vevent::patched_lines(
            crate::ics::logical_lines(crate::vevent::lines_text(out)),
            second.0,
            second.1,
        ) == crate::vevent::patched_lines(lines, second.0, second.1),
{
    crate::ics_laws::lemma_span_lines(r, span);
    lemma_patched_plain(lines, r.title, span, out);
    crate::ics_laws::law_lines_read_back(out);
    law_last_change_wins(lines, (r.title, span), second, out);
}

// ── What is read of a changed event ───────────────────────────────────────

/// What has been read once more lines have been.
spec fn after_lines(
    st: (Seq<crate::ics::VEventView>, Option<crate::ics::VEventView>),
    lines: Seq<Seq<char>>,
) -> (Seq<crate::ics::VEventView>, Option<crate::ics::VEventView>)
    decreases lines.len(),
{
    if lines.len() == 0 {
        st
    } else {
        crate::ics::after_line(after_lines(st, lines.drop_last()), lines.last())
    }
}

proof fn lemma_read_on(a: Seq<Seq<char>>, b: Seq<Seq<char>>)
    ensures
        crate::ics::events_in(a + b) == after_lines(crate::ics::events_in(a), b),
    decreases b.len(),
{
    if b.len() == 0 {
        assert(a + b =~= a);
    } else {
        lemma_read_on(a, b.drop_last());
        assert((a + b).drop_last() =~= a + b.drop_last());
    }
}

/// Whether two events differ at most in their title and their span.
pub open spec fn agree(a: crate::ics::VEventView, b: crate::ics::VEventView) -> bool {
    &&& a.uid == b.uid
    &&& a.cancelled == b.cancelled
    &&& a.has_rrule == b.has_rrule
    &&& a.has_recurrence_id == b.has_recurrence_id
}

proof fn lemma_kept_agrees(
    events: Seq<crate::ics::VEventView>,
    ev: crate::ics::VEventView,
    inner: Seq<Seq<char>>,
    n: int,
)
    requires
        0 <= n <= inner.len(),
        forall|i: int| 0 <= i < inner.len() ==> !crate::ics::ends_event(#[trigger] inner[i]),
    ensures
        ({
            let x = after_lines((events, Some(ev)), inner.take(n));
            let y = after_lines((events, Some(ev)), crate::vevent::kept_among(inner, n));
            &&& x.0 == events
            &&& y.0 == events
            &&& x.1 is Some
            &&& y.1 is Some
            &&& agree(x.1->0, y.1->0)
        }),
    decreases n,
{
    if n > 0 {
        lemma_kept_agrees(events, ev, inner, n - 1);
        let last = inner[n - 1];
        assert(inner.take(n).drop_last() =~= inner.take(n - 1));
        assert(inner.take(n).last() == last);
        assert(!crate::ics::ends_event(inner[n - 1]));
        crate::ics_laws::lemma_names_differ();
        reveal_strlit("DURATION");
        let before = crate::vevent::kept_among(inner, n - 1);
        assert(before.push(last).drop_last() =~= before);
    } else {
        assert(inner.take(n) =~= Seq::empty());
    }
}

proof fn lemma_no_events_before(lines: Seq<Seq<char>>, n: int)
    requires
        0 <= n <= lines.len(),
        forall|i: int| 0 <= i < n ==> !crate::ics::begins_event(#[trigger] lines[i]),
    ensures
        crate::ics::events_in(lines.take(n)) == (
            Seq::<crate::ics::VEventView>::empty(),
            None::<crate::ics::VEventView>,
        ),
    decreases n,
{
    if n > 0 {
        lemma_no_events_before(lines, n - 1);
        assert(lines.take(n).drop_last() =~= lines.take(n - 1));
    }
}

/// Changing an event changes only its title and its span: of the first event of the changed
/// lines those are read that were written, and everything else as before.
pub proof fn law_change_is_read_back(
    lines: Seq<Seq<char>>,
    title: Seq<char>,
    span: (Seq<char>, Seq<char>),
    out: Seq<Seq<char>>,
)
    requires
        are_dt_lines(span),
        crate::vevent::patched_lines(lines, title, span) == Some(out),
    ensures
        ({
            let old_event = crate::ics::events_in(lines).0[0];
            let new_event = crate::ics::events_in(out).0[0];
            &&& crate::ics::events_in(lines).0.len() > 0
            &&& crate::ics::events_in(out).0.len() == crate::ics::events_in(lines).0.len()
            &&& new_event == (crate::ics::VEventView {
                summary: crate::ics::unescaped(
                    crate::text::trimmed(crate::ics::escaped(title)),
                ),
                dtstart: crate::ics::dt_read(
                    crate::ics::line_head(span.0),
                    crate::ics::line_value(span.0),
                ),
                dtend: crate::ics::dt_read(
                    crate::ics::line_head(span.1),
                    crate::ics::line_value(span.1),
                ),
                ..old_event
            })
            &&& crate::ics::events_in(out).0.drop_first() == crate::ics::events_in(
                lines,
            ).0.drop_first()
        }),
{
    lemma_patched(lines, title, span, out);
    lemma_first_event(lines);
    lemma_first_event(out);
    let (inner, rest) = (inner_of(lines), rest_of(lines));
    let kept = crate::vevent::kept(inner);
    let none = Seq::<crate::ics::VEventView>::empty();
    let blank = crate::ics::blank_event();
    lemma_event_end(lines.skip(begin_of(lines) + 1));
    assert forall|i: int| 0 <= i < inner.len() implies !crate::ics::ends_event(
        #[trigger] inner[i],
    ) by {
        assert(lines.skip(begin_of(lines) + 1)[i] == inner[i]);
    }
    lemma_kept_agrees(none, blank, inner, inner.len() as int);
    assert(inner.take(inner.len() as int) =~= inner);
    lemma_added(none, blank, kept, title, span);
    let x = after_lines((none, Some(blank)), inner).1->0;
    let y = after_lines((none, Some(blank)), inner_of(out)).1->0;
    lemma_same_later(none, x, y, None, rest.drop_first());
}

/// What the title and the span that are added to the lines of an event do.
proof fn lemma_added(
    events: Seq<crate::ics::VEventView>,
    ev: crate::ics::VEventView,
    kept: Seq<Seq<char>>,
    title: Seq<char>,
    span: (Seq<char>, Seq<char>),
)
    requires
        are_dt_lines(span),
        after_lines((events, Some(ev)), kept).0 == events,
        after_lines((events, Some(ev)), kept).1 is Some,
    ensures
        ({
            let y = after_lines((events, Some(ev)), kept).1->0;
            let lines = kept + seq![
                "SUMMARY:"@ + crate::ics::escaped(title),
                span.0,
                span.1,
            ];
            after_lines((events, Some(ev)), lines) == (
                events,
                Some(
                    crate::ics::VEventView {
                        summary: crate::ics::unescaped(
                            crate::text::trimmed(crate::ics::escaped(title)),
                        ),
                        dtstart: crate::ics::dt_read(
                            crate::ics::line_head(span.0),
                            crate::ics::line_value(span.0),
                        ),
                        dtend: crate::ics::dt_read(
                            crate::ics::line_head(span.1),
                            crate::ics::line_value(span.1),
                        ),
                        ..y
                    },
                ),
            )
        }),
{
    let st = (events, Some(ev));
    let summary = "SUMMARY:"@ + crate::ics::escaped(title);
    crate::ics_laws::lemma_names_differ();
    lemma_summary_line(crate::ics::escaped(title));
    let b = kept.push(summary);
    let c = b.push(span.0);
    let d = c.push(span.1);
    assert(b.drop_last() =~= kept);
    assert(c.drop_last() =~= b);
    assert(d.drop_last() =~= c);
    assert(d =~= kept + seq![summary, span.0, span.1]);
    assert(after_lines(st, b) == crate::ics::after_line(after_lines(st, kept), summary));
    assert(after_lines(st, c) == crate::ics::after_line(after_lines(st, b), span.0));
    assert(after_lines(st, d) == crate::ics::after_line(after_lines(st, c), span.1));
}

/// What is read of lines with an event: the first event is what its inner lines say, and the
/// lines behind it give the others.
proof fn lemma_first_event(lines: Seq<Seq<char>>)
    requires
        crate::vevent::has_event(lines),
    ensures
        ({
            let none = Seq::<crate::ics::VEventView>::empty();
            let inside = after_lines((none, Some(crate::ics::blank_event())), inner_of(lines));
            &&& rest_of(lines).len() > 0
            &&& inside.0 == none
            &&& inside.1 is Some
            &&& crate::ics::events_in(lines) == after_lines(
                (none.push(inside.1->0), None::<crate::ics::VEventView>),
                rest_of(lines).drop_first(),
            )
        }),
{
    let begin = begin_of(lines);
    let body = lines.skip(begin + 1);
    let end = crate::vevent::event_end(body);
    lemma_event_start(lines);
    lemma_event_end(body);
    let inner = inner_of(lines);
    let rest = rest_of(lines);
    let blank = crate::ics::blank_event();
    let none = Seq::<crate::ics::VEventView>::empty();
    lemma_no_events_before(lines, begin);
    assert(lines.take(begin + 1).drop_last() =~= lines.take(begin));
    lemma_begins_is_content(lines[begin]);
    assert(crate::ics::events_in(lines.take(begin + 1)) == (none, Some(blank)));
    assert forall|i: int| 0 <= i < inner.len() implies !crate::ics::ends_event(
        #[trigger] inner[i],
    ) by {
        assert(body[i] == inner[i]);
    }
    lemma_kept_agrees(none, blank, inner, inner.len() as int);
    assert(inner.take(inner.len() as int) =~= inner);
    lemma_read_on(lines.take(begin + 1), inner);
    let close = rest[0];
    let later = rest.drop_first();
    assert(close == body[end]);
    lemma_ends_is_content(close);
    let upto = lines.take(begin + 1) + inner;
    assert(upto.push(close).drop_last() =~= upto);
    assert(lines =~= upto.push(close) + later);
    lemma_read_on(upto.push(close), later);
}

/// A line that opens an event is a content line.
proof fn lemma_begins_is_content(line: Seq<char>)
    requires
        crate::ics::begins_event(line),
    ensures
        crate::ics::is_content_line(line),
{
    crate::ics_laws::lemma_names_differ();
}

/// A line that closes an event is a content line and opens none.
proof fn lemma_ends_is_content(line: Seq<char>)
    requires
        crate::ics::ends_event(line),
    ensures
        crate::ics::is_content_line(line),
        !crate::ics::begins_event(line),
{
    crate::ics_laws::lemma_names_differ();
}

/// What is read later does not depend on the events before.
proof fn lemma_same_later(
    none: Seq<crate::ics::VEventView>,
    x: crate::ics::VEventView,
    y: crate::ics::VEventView,
    open: Option<crate::ics::VEventView>,
    later: Seq<Seq<char>>,
)
    requires
        none.len() == 0,
    ensures
        ({
            let p = after_lines((none.push(x), open), later);
            let q = after_lines((none.push(y), open), later);
            &&& p.0.len() == q.0.len()
            &&& p.0.len() > 0
            &&& p.0[0] == x
            &&& q.0[0] == y
            &&& p.0.drop_first() == q.0.drop_first()
            &&& p.1 == q.1
        }),
    decreases later.len(),
{
    let p = after_lines((none.push(x), open), later);
    let q = after_lines((none.push(y), open), later);
    if later.len() == 0 {
        assert(p.0.drop_first() =~= q.0.drop_first());
    } else {
        lemma_same_later(none, x, y, open, later.drop_last());
        let (p0, q0) = (
            after_lines((none.push(x), open), later.drop_last()),
            after_lines((none.push(y), open), later.drop_last()),
        );
        if p.0.len() > p0.0.len() {
            assert(p.0.drop_first() =~= p0.0.drop_first().push(p.0.last()));
            assert(q.0.drop_first() =~= q0.0.drop_first().push(q.0.last()));
        }
    }
}

} // verus!
