//! What reading iCalendar text is for: every event between its first and its last line is read,
//! with what the last line of each kind says.
use vstd::prelude::*;

use crate::date::Moment;
use crate::ics::{DtView, VEventView};

verus! {

// ── Letters and white space ───────────────────────────────────────────────

/// Whether two characters are the same letter, in upper or lower case, or the same character.
pub open spec fn is_same_letter(a: char, b: char) -> bool {
    ||| a == b
    ||| 'a' <= a <= 'z' && a as int == b as int + 32
    ||| 'a' <= b <= 'z' && b as int == a as int + 32
}

/// Two texts are the same but for case exactly where they are as long and have the same letter at
/// each place.
pub proof fn law_case_is_ignored(a: Seq<char>, b: Seq<char>)
    ensures
        crate::text::same_letters(a, b) <==> a.len() == b.len() && forall|i: int|
            0 <= i < a.len() ==> is_same_letter(#[trigger] a[i], b[i]),
{
    let (x, y) = (crate::text::lower(a), crate::text::lower(b));
    if crate::text::same_letters(a, b) {
        assert(x.len() == y.len());
        assert forall|i: int| 0 <= i < a.len() implies is_same_letter(#[trigger] a[i], b[i]) by {
            assert(x[i] == y[i]);
        }
    }
    if a.len() == b.len() && forall|i: int|
        0 <= i < a.len() ==> is_same_letter(#[trigger] a[i], b[i]) {
        assert forall|i: int| 0 <= i < x.len() implies x[i] == y[i] by {
            assert(is_same_letter(a[i], b[i]));
        }
        assert(x =~= y);
    }
}

/// Trimming takes the white space off both ends, and nothing else.
pub proof fn law_trimming(s: Seq<char>, from: int, to: int)
    requires
        0 <= from <= to <= s.len(),
        forall|i: int| 0 <= i < from ==> crate::text::is_white_space(#[trigger] s[i]),
        forall|i: int| to <= i < s.len() ==> crate::text::is_white_space(#[trigger] s[i]),
        from < to ==> !crate::text::is_white_space(s[from]) && !crate::text::is_white_space(
            s[to - 1],
        ),
        from == to ==> to == s.len(),
    ensures
        crate::text::trimmed(s) == s.subrange(from, to),
{
    lemma_trim_front(s, from);
    let rest = s.skip(from);
    assert forall|i: int| to - from <= i < rest.len() implies crate::text::is_white_space(
        #[trigger] rest[i],
    ) by {
        assert(rest[i] == s[i + from]);
    }
    lemma_trim_back(rest, to - from);
    assert(rest.take(to - from) =~= s.subrange(from, to));
}

proof fn lemma_trim_front(s: Seq<char>, from: int)
    requires
        0 <= from <= s.len(),
        forall|i: int| 0 <= i < from ==> crate::text::is_white_space(#[trigger] s[i]),
        from < s.len() ==> !crate::text::is_white_space(s[from]),
    ensures
        crate::text::trim_start(s) == s.skip(from),
    decreases from,
{
    if from > 0 {
        let rest = s.drop_first();
        assert(crate::text::is_white_space(s[0]));
        assert forall|i: int| 0 <= i < from - 1 implies crate::text::is_white_space(
            #[trigger] rest[i],
        ) by {
            assert(rest[i] == s[i + 1]);
        }
        lemma_trim_front(rest, from - 1);
        assert(rest.skip(from - 1) =~= s.skip(from));
    } else {
        assert(s.skip(0) =~= s);
    }
}

proof fn lemma_trim_back(s: Seq<char>, to: int)
    requires
        0 <= to <= s.len(),
        forall|i: int| to <= i < s.len() ==> crate::text::is_white_space(#[trigger] s[i]),
        to > 0 ==> !crate::text::is_white_space(s[to - 1]),
    ensures
        crate::text::trim_end(s) == s.take(to),
    decreases s.len(),
{
    if to < s.len() {
        let rest = s.drop_last();
        assert(crate::text::is_white_space(s[s.len() - 1]));
        assert forall|i: int| to <= i < rest.len() implies crate::text::is_white_space(
            #[trigger] rest[i],
        ) by {
            assert(rest[i] == s[i]);
        }
        lemma_trim_back(rest, to);
        assert(rest.take(to) =~= s.take(to));
    } else {
        assert(s.take(to) =~= s);
    }
}

/// The pieces of a text between separators hold none, and the text behind a separator falls into
/// its own pieces behind those before it.
pub proof fn law_pieces(a: Seq<char>, b: Seq<char>, c: char)
    ensures
        !a.contains(c) ==> crate::text::split_on(a, c) == seq![a],
        crate::text::split_on(a.push(c) + b, c) == crate::text::split_on(a, c)
            + crate::text::split_on(b, c),
{
    if !a.contains(c) {
        crate::text::lemma_find_is(a, c, a.len() as int);
    }
    let cb = seq![c] + b;
    crate::ics_laws::lemma_split_parts(a, cb, c);
    crate::text::lemma_find_is(cb, c, 0);
    assert(cb.take(0) =~= Seq::<char>::empty());
    assert(cb.skip(1) =~= b);
    let (p, q) = (crate::text::split_on(a, c), crate::text::split_on(cb, c));
    assert(q =~= seq![Seq::<char>::empty()] + crate::text::split_on(b, c));
    assert(q.drop_first() =~= crate::text::split_on(b, c));
    assert(p.last() + q[0] =~= p.last());
    assert(p.drop_last() + seq![p.last()] =~= p);
    assert(a.push(c) + b =~= a + cb);
}

// ── Content lines ─────────────────────────────────────────────────────────

/// How many double quotes a text holds.
pub open spec fn quotes(s: Seq<char>) -> nat
    decreases s.len(),
{
    if s.len() == 0 {
        0
    } else {
        quotes(s.drop_last()) + if s.last() == '"' {
            1nat
        } else {
            0
        }
    }
}

/// A content line is a head, a colon and a value: the colon is the first that has an even number
/// of double quotes before it. Any other line has no such colon. The name is what stands before
/// the first semicolon of the head, in upper case.
pub proof fn law_content_line(line: Seq<char>)
    ensures
        ({
            let c = crate::ics::line_head(line).len() as int;
            &&& crate::ics::is_content_line(line) ==> {
                &&& line == crate::ics::line_head(line) + seq![':'] + crate::ics::line_value(line)
                &&& quotes(line.take(c)) % 2 == 0
                &&& forall|i: int|
                    0 <= i < c && #[trigger] line[i] == ':' ==> quotes(line.take(i)) % 2 == 1
                &&& forall|k: int|
                    0 <= k <= c && (forall|i: int| 0 <= i < k ==> line[i] != ';') && (k == c
                        || line[k] == ';') ==> crate::ics::line_name(line) == #[trigger] crate::text::upper(
                        line.take(k),
                    )
            }
            &&& !crate::ics::is_content_line(line) ==> forall|i: int|
                0 <= i < line.len() && #[trigger] line[i] == ':' ==> quotes(line.take(i)) % 2 == 1
        }),
{
    lemma_colon(line, false);
    let c = crate::ics::colon(line, false);
    let head = crate::ics::line_head(line);
    if c < line.len() {
        assert(head.len() == c);
        assert(line =~= head + seq![':'] + crate::ics::line_value(line));
        assert forall|k: int|
            0 <= k <= c && (forall|i: int| 0 <= i < k ==> line[i] != ';') && (k == c || line[k]
                == ';') implies crate::ics::line_name(line) == #[trigger] crate::text::upper(
            line.take(k),
        ) by {
            crate::text::lemma_find_is(head, ';', k);
            assert(head.take(k) =~= line.take(k));
        }
    }
}

proof fn lemma_colon(s: Seq<char>, quoted: bool)
    ensures
        ({
            let c = crate::ics::colon(s, quoted);
            let odd: int = if quoted {
                1
            } else {
                0
            };
            &&& 0 <= c <= s.len()
            &&& c < s.len() ==> s[c] == ':' && (quotes(s.take(c)) + odd) % 2 == 0
            &&& forall|i: int|
                0 <= i < c && #[trigger] s[i] == ':' ==> (quotes(s.take(i)) + odd) % 2 == 1
        }),
    decreases s.len(),
{
    let c = crate::ics::colon(s, quoted);
    if s.len() == 0 || (s[0] == ':' && !quoted) {
        assert(s.take(0) =~= Seq::<char>::empty());
    } else {
        let rest = s.drop_first();
        let next = quoted != (s[0] == '"');
        lemma_colon(rest, next);
        if c < s.len() {
            assert(rest[c - 1] == s[c]);
            lemma_quotes_first(s.take(c));
            assert(s.take(c).drop_first() =~= rest.take(c - 1));
        }
        assert forall|i: int| 0 <= i < c && #[trigger] s[i] == ':' implies (quotes(s.take(i)) + (
        if quoted {
            1int
        } else {
            0
        })) % 2 == 1 by {
            if i > 0 {
                assert(rest[i - 1] == s[i]);
                lemma_quotes_first(s.take(i));
                assert(s.take(i).drop_first() =~= rest.take(i - 1));
            } else {
                assert(s.take(0) =~= Seq::<char>::empty());
            }
        }
    }
}

proof fn lemma_quotes_first(s: Seq<char>)
    requires
        s.len() > 0,
    ensures
        quotes(s) == quotes(s.drop_first()) + if s[0] == '"' {
            1nat
        } else {
            0
        },
    decreases s.len(),
{
    if s.len() > 1 {
        lemma_quotes_first(s.drop_last());
        assert(s.drop_last().drop_first() =~= s.drop_first().drop_last());
    } else {
        assert(s.drop_last() =~= Seq::<char>::empty());
        assert(s.drop_first() =~= Seq::<char>::empty());
    }
}

// ── Text values ───────────────────────────────────────────────────────────

/// A text value reads character by character: a backslash with an `n` of either case behind it is
/// a space, one with another character behind it is that character, and one at the end is
/// nothing. Every other character is itself.
pub proof fn law_escapes(c: char, rest: Seq<char>)
    ensures
        crate::ics::unescaped(Seq::empty()) == Seq::<char>::empty(),
        crate::ics::unescaped(seq!['\\']) == Seq::<char>::empty(),
        c != '\\' ==> crate::ics::unescaped(seq![c] + rest) == seq![c] + crate::ics::unescaped(
            rest,
        ),
        crate::ics::unescaped(seq!['\\', c] + rest) == seq![
            if c == 'n' || c == 'N' {
                ' '
            } else {
                c
            },
        ] + crate::ics::unescaped(rest),
{
    let one = seq![c] + rest;
    let two = seq!['\\', c] + rest;
    assert(one.drop_first() =~= rest);
    assert(two.skip(2) =~= rest);
    reveal_with_fuel(crate::ics::unescaped, 2);
}

/// A text is written as a value character by character, and only backslashes, commas, semicolons
/// and line feeds are written otherwise than they are.
pub proof fn law_writing_escapes(s: Seq<char>, c: char)
    ensures
        crate::ics::escaped(Seq::empty()) == Seq::<char>::empty(),
        crate::ics::escaped(s.push(c)) == crate::ics::escaped(s) + if c == '\n' {
            seq!['\\', 'n']
        } else if c == '\\' || c == ',' || c == ';' {
            seq!['\\', c]
        } else {
            seq![c]
        },
{
    assert(s.push(c).drop_last() =~= s);
    reveal_with_fuel(crate::ics::escaped, 2);
}

// ── Dates and times ───────────────────────────────────────────────────────

/// Whether a piece of a head is a parameter that says that the value is a date, in any case.
pub open spec fn says_date(piece: Seq<char>) -> bool {
    crate::text::same_letters(piece, "VALUE=DATE"@)
}

/// Whether a piece of a head begins like a parameter that names a zone, in any case.
pub open spec fn may_name_zone(piece: Seq<char>) -> bool {
    piece.len() >= 4 && crate::text::same_letters(piece.take(4), "TZID"@)
}

/// A value that is a date and time without a `Z` at its end is the clock reading in the zone that
/// the last parameter `TZID` names, whether the name stands in double quotes or not.
pub proof fn law_zone_is_read(
    head: Seq<char>,
    value: Seq<char>,
    n: int,
    key: Seq<char>,
    zone: Seq<char>,
    m: Moment,
)
    requires
        ({
            let pieces = crate::text::split_on(head, ';');
            &&& 1 <= n < pieces.len()
            &&& crate::text::same_letters(key, "TZID"@)
            &&& pieces[n] == key + seq!['='] + zone || pieces[n] == key + seq!['=', '"'] + zone
                + seq!['"']
            &&& forall|k: int| n < k < pieces.len() ==> !may_name_zone(#[trigger] pieces[k])
            &&& forall|k: int| 1 <= k < pieces.len() ==> !says_date(#[trigger] pieces[k])
        }),
        !zone.contains('"'),
        ({
            let v = crate::text::trimmed(value);
            &&& vstd::utf8::encode_utf8(v).len() != 8
            &&& v.len() == 0 || v.last() != 'Z'
            &&& crate::date::moment_read_as(v, "%Y%m%dT%H%M%S"@) == Some(m)
        }),
    ensures
        crate::ics::dt_read(head, value) == Some(DtView::Zoned(m, Some(zone))),
{
    let pieces = crate::text::split_on(head, ';');
    let all = crate::ics::params(head);
    assert(forall|k: int| 0 <= k < all.len() ==> all[k] == pieces[k + 1]);
    lemma_no_date(all);
    lemma_zone_piece(pieces[n], key, zone);
    assert(all[n - 1] == pieces[n]);
    assert forall|k: int| n - 1 < k < all.len() implies crate::ics::param_key(#[trigger] all[k])
        != "TZID"@ by {
        assert(!may_name_zone(pieces[k + 1]));
        lemma_no_zone(all[k]);
    }
    lemma_last_zone(all, n - 1);
}

/// The usual form of a zoned start or end: a name, the zone in double quotes or not, and a date
/// and time.
pub proof fn law_usual_zone_is_read(
    name: Seq<char>,
    quoted: bool,
    zone: Seq<char>,
    value: Seq<char>,
    m: Moment,
)
    requires
        !name.contains(';'),
        !zone.contains(';'),
        !zone.contains('"'),
        ({
            let v = crate::text::trimmed(value);
            &&& vstd::utf8::encode_utf8(v).len() != 8
            &&& v.len() == 0 || v.last() != 'Z'
            &&& crate::date::moment_read_as(v, "%Y%m%dT%H%M%S"@) == Some(m)
        }),
    ensures
        ({
            let head = if quoted {
                name + ";TZID=\""@ + zone + "\""@
            } else {
                name + ";TZID="@ + zone
            };
            crate::ics::dt_read(head, value) == Some(DtView::Zoned(m, Some(zone)))
        }),
{
    reveal_strlit(";TZID=\"");
    reveal_strlit(";TZID=");
    reveal_strlit("TZID");
    reveal_strlit("\"");
    reveal_strlit("VALUE=DATE");
    let plain = "TZID"@ + seq!['='] + zone;
    let within = "TZID"@ + seq!['=', '"'] + zone + seq!['"'];
    let param = if quoted {
        within
    } else {
        plain
    };
    let head = if quoted {
        name + ";TZID=\""@ + zone + "\""@
    } else {
        name + ";TZID="@ + zone
    };
    assert(head =~= name.push(';') + param);
    assert(!param.contains(';')) by {
        assert forall|i: int| 0 <= i < param.len() implies param[i] != ';' by {
            let shift: int = if quoted {
                6
            } else {
                5
            };
            if shift <= i < shift + zone.len() {
                assert(param[i] == zone[i - shift]);
                assert(zone.contains(zone[i - shift]));
            }
        }
    }
    law_pieces(name, param, ';');
    law_pieces(param, Seq::empty(), ';');
    let pieces = crate::text::split_on(head, ';');
    assert(pieces =~= seq![name, param]);
    assert(!says_date(param)) by {
        law_case_is_ignored(param, "VALUE=DATE"@);
        if param.len() == 10 {
            assert(param[0] == 'T' && "VALUE=DATE"@[0] == 'V');
            assert(!is_same_letter(param[0], "VALUE=DATE"@[0]));
        }
    }
    law_zone_is_read(head, value, 1, "TZID"@, zone, m);
}

/// A value is a whole day where it is eight bytes long or the property says that it is a date, an
/// instant in UTC where it ends with a `Z`, and else a clock reading: in no zone where no
/// parameter names one. What is not of that form is nothing.
pub proof fn law_values_are_read(head: Seq<char>, value: Seq<char>)
    ensures
        ({
            let pieces = crate::text::split_on(head, ';');
            let dated = exists|k: int| 1 <= k < pieces.len() && says_date(#[trigger] pieces[k]);
            let v = crate::text::trimmed(value);
            if dated || vstd::utf8::encode_utf8(v).len() == 8 {
                match crate::ics::dt_read(head, value) {
                    Some(DtView::Date(d)) => crate::date::date_read_as(v, "%Y%m%d"@) == Some(d),
                    Some(_) => false,
                    None => crate::date::date_read_as(v, "%Y%m%d"@) is None,
                }
            } else if v.len() > 0 && v.last() == 'Z' {
                match crate::ics::dt_read(head, value) {
                    Some(DtView::Utc(m)) => crate::date::moment_read_as(
                        v.drop_last(),
                        "%Y%m%dT%H%M%S"@,
                    ) == Some(m),
                    Some(_) => false,
                    None => crate::date::moment_read_as(v.drop_last(), "%Y%m%dT%H%M%S"@) is None,
                }
            } else {
                match crate::ics::dt_read(head, value) {
                    Some(DtView::Zoned(m, zone)) => {
                        &&& crate::date::moment_read_as(v, "%Y%m%dT%H%M%S"@) == Some(m)
                        &&& (forall|k: int|
                            1 <= k < pieces.len() ==> !may_name_zone(#[trigger] pieces[k]))
                            ==> zone is None
                    },
                    Some(_) => false,
                    None => crate::date::moment_read_as(v, "%Y%m%dT%H%M%S"@) is None,
                }
            }
        }),
{
    let pieces = crate::text::split_on(head, ';');
    let all = crate::ics::params(head);
    assert(forall|k: int| 0 <= k < all.len() ==> all[k] == pieces[k + 1]);
    if exists|k: int| 1 <= k < pieces.len() && says_date(#[trigger] pieces[k]) {
        let k = choose|k: int| 1 <= k < pieces.len() && says_date(#[trigger] pieces[k]);
        lemma_date_piece(all[k - 1]);
        assert(crate::ics::is_date_param(all[k - 1]));
    } else {
        assert forall|k: int| 0 <= k < all.len() implies !crate::ics::is_date_param(
            #[trigger] all[k],
        ) by {
            assert(!says_date(pieces[k + 1]));
            lemma_date_piece(all[k]);
        }
    }
    if forall|k: int| 1 <= k < pieces.len() ==> !may_name_zone(#[trigger] pieces[k]) {
        assert forall|k: int| 0 <= k < all.len() implies crate::ics::param_key(#[trigger] all[k])
            != "TZID"@ by {
            assert(!may_name_zone(pieces[k + 1]));
            lemma_no_zone(all[k]);
        }
        lemma_without_zone(all);
    }
}

proof fn lemma_no_date(all: Seq<Seq<char>>)
    requires
        forall|k: int| 0 <= k < all.len() ==> !says_date(#[trigger] all[k]),
    ensures
        !crate::ics::date_param(all),
{
    assert forall|k: int| 0 <= k < all.len() implies !crate::ics::is_date_param(
        #[trigger] all[k],
    ) by {
        lemma_date_piece(all[k]);
    }
}

/// Which letters are the same in upper case.
proof fn lemma_upper_same(a: Seq<char>, b: Seq<char>)
    ensures
        crate::text::same_letters(a, b) <==> crate::text::upper(a) == crate::text::upper(b),
{
    law_case_is_ignored(a, b);
    let (x, y) = (crate::text::upper(a), crate::text::upper(b));
    if x == y {
        assert(x.len() == a.len() && y.len() == b.len());
        assert forall|i: int| 0 <= i < a.len() implies is_same_letter(#[trigger] a[i], b[i]) by {
            assert(x[i] == y[i]);
        }
    }
    if crate::text::same_letters(a, b) {
        assert forall|i: int| 0 <= i < x.len() implies x[i] == y[i] by {
            assert(is_same_letter(a[i], b[i]));
        }
        assert(x =~= y);
    }
}

proof fn lemma_date_piece(p: Seq<char>)
    ensures
        crate::ics::is_date_param(p) <==> says_date(p),
{
    reveal_strlit("VALUE=DATE");
    reveal_strlit("VALUE");
    reveal_strlit("DATE");
    let k = crate::text::find(p, '=');
    crate::text::lemma_find(p, '=');
    let whole = "VALUE=DATE"@;
    law_case_is_ignored(p, whole);
    assert(crate::text::upper("VALUE"@) =~= "VALUE"@);
    lemma_upper_same(p.take(k), "VALUE"@);
    law_case_is_ignored(p.take(k), "VALUE"@);
    if crate::ics::is_date_param(p) {
        assert(k == 5);
        assert(k < p.len()) by {
            if k >= p.len() {
                law_case_is_ignored(Seq::<char>::empty(), "DATE"@);
            }
        }
        law_case_is_ignored(p.skip(6), "DATE"@);
        assert forall|i: int| 0 <= i < p.len() implies is_same_letter(#[trigger] p[i], whole[i]) by {
            if i < 5 {
                assert(is_same_letter(p.take(5)[i], "VALUE"@[i]));
            } else if i > 5 {
                assert(is_same_letter(p.skip(6)[i - 6], "DATE"@[i - 6]));
            }
        }
    }
    if says_date(p) {
        assert(p.len() == 10);
        assert(is_same_letter(p[5], whole[5]));
        assert(p[5] == '=');
        assert forall|i: int| 0 <= i < 5 implies p[i] != '=' by {
            assert(is_same_letter(p[i], whole[i]));
        }
        crate::text::lemma_find_is(p, '=', 5);
        assert forall|i: int| 0 <= i < 5 implies is_same_letter(
            #[trigger] p.take(5)[i],
            "VALUE"@[i],
        ) by {
            assert(is_same_letter(p[i], whole[i]));
        }
        assert(crate::text::upper(p.take(5)) == "VALUE"@);
        law_case_is_ignored(p.skip(6), "DATE"@);
        assert forall|i: int| 0 <= i < 4 implies is_same_letter(
            #[trigger] p.skip(6)[i],
            "DATE"@[i],
        ) by {
            assert(is_same_letter(p[i + 6], whole[i + 6]));
        }
    }
}

proof fn lemma_no_zone(p: Seq<char>)
    requires
        !may_name_zone(p),
    ensures
        crate::ics::param_key(p) != "TZID"@,
{
    reveal_strlit("TZID");
    let k = crate::text::find(p, '=');
    crate::text::lemma_find(p, '=');
    if crate::ics::param_key(p) == "TZID"@ {
        assert(crate::text::upper(p.take(k)).len() == 4);
        assert(k == 4);
        assert(crate::text::upper("TZID"@) =~= "TZID"@);
        lemma_upper_same(p.take(4), "TZID"@);
    }
}

proof fn lemma_zone_piece(p: Seq<char>, key: Seq<char>, zone: Seq<char>)
    requires
        crate::text::same_letters(key, "TZID"@),
        p == key + seq!['='] + zone || p == key + seq!['=', '"'] + zone + seq!['"'],
        !zone.contains('"'),
    ensures
        crate::ics::param_key(p) == "TZID"@,
        crate::text::strip_end(
            crate::text::strip_start(crate::ics::param_value(p), '"'),
            '"',
        ) == zone,
{
    reveal_strlit("TZID");
    law_case_is_ignored(key, "TZID"@);
    assert forall|i: int| 0 <= i < 4 implies p[i] != '=' by {
        assert(p[i] == key[i]);
        assert(is_same_letter(key[i], "TZID"@[i]));
    }
    assert(p[4] == '=');
    crate::text::lemma_find_is(p, '=', 4);
    assert(p.take(4) =~= key);
    lemma_upper_same(key, "TZID"@);
    assert(crate::text::upper("TZID"@) =~= "TZID"@);
    let v = crate::ics::param_value(p);
    assert forall|i: int| 0 <= i < zone.len() implies zone[i] != '"' by {
        assert(zone.contains(zone[i]));
    }
    if p == key + seq!['='] + zone {
        assert(v =~= zone);
    } else {
        assert(v =~= seq!['"'] + zone + seq!['"']);
        assert(v[0] == '"');
        let rest = v.drop_first();
        assert(rest =~= zone.push('"'));
        if zone.len() == 0 {
            assert(rest.drop_first() =~= Seq::<char>::empty());
            assert(zone =~= Seq::<char>::empty());
            reveal_with_fuel(crate::text::strip_start, 3);
        } else {
            assert(rest[0] == zone[0]);
            reveal_with_fuel(crate::text::strip_start, 2);
            assert(crate::text::strip_start(v, '"') == rest);
            assert(rest.drop_last() =~= zone);
            reveal_with_fuel(crate::text::strip_end, 2);
        }
    }
}

proof fn lemma_last_zone(all: Seq<Seq<char>>, n: int)
    requires
        0 <= n < all.len(),
        crate::ics::param_key(all[n]) == "TZID"@,
        forall|k: int| n < k < all.len() ==> crate::ics::param_key(#[trigger] all[k]) != "TZID"@,
    ensures
        crate::ics::zone_param(all) == Some(
            crate::text::strip_end(
                crate::text::strip_start(crate::ics::param_value(all[n]), '"'),
                '"',
            ),
        ),
    decreases all.len(),
{
    if n < all.len() - 1 {
        assert(crate::ics::param_key(all[all.len() - 1]) != "TZID"@);
        lemma_last_zone(all.drop_last(), n);
    }
}

proof fn lemma_without_zone(all: Seq<Seq<char>>)
    requires
        forall|k: int| 0 <= k < all.len() ==> crate::ics::param_key(#[trigger] all[k]) != "TZID"@,
    ensures
        crate::ics::zone_param(all) is None,
    decreases all.len(),
{
    if all.len() > 0 {
        assert(crate::ics::param_key(all[all.len() - 1]) != "TZID"@);
        lemma_without_zone(all.drop_last());
    }
}

// ── Events ────────────────────────────────────────────────────────────────

/// Whether a line opens an event.
pub open spec fn opens_event(line: Seq<char>) -> bool {
    crate::ics::line_name(line) == "BEGIN"@ && crate::text::same_letters(
        crate::ics::line_value(line),
        "VEVENT"@,
    )
}

/// Whether a line closes an event.
pub open spec fn closes_event(line: Seq<char>) -> bool {
    crate::ics::line_name(line) == "END"@ && crate::text::same_letters(
        crate::ics::line_value(line),
        "VEVENT"@,
    )
}

/// Whether a line is the last of several with a name.
pub open spec fn is_last(lines: Seq<Seq<char>>, k: int, name: Seq<char>) -> bool {
    &&& 0 <= k < lines.len()
    &&& crate::ics::line_name(lines[k]) == name
    &&& forall|j: int| k < j < lines.len() ==> crate::ics::line_name(#[trigger] lines[j]) != name
}

/// Whether one of several lines has a name.
pub open spec fn is_there(lines: Seq<Seq<char>>, name: Seq<char>) -> bool {
    exists|k: int| 0 <= k < lines.len() && crate::ics::line_name(#[trigger] lines[k]) == name
}

/// Whether an event is what lines say: its identity and its title, when it starts and ends and
/// whether it is cancelled are what the last line of each kind says, and nothing where there is
/// none; it repeats where a line gives a rule or dates for that, and is one of several where a
/// line says of which.
pub open spec fn is_said(ev: VEventView, lines: Seq<Seq<char>>) -> bool {
    &&& forall|k: int| #[trigger]
        is_last(lines, k, "UID"@) ==> ev.uid == crate::text::trimmed(
            crate::ics::line_value(lines[k]),
        )
    &&& forall|k: int| #[trigger]
        is_last(lines, k, "SUMMARY"@) ==> ev.summary == crate::ics::unescaped(
            crate::text::trimmed(crate::ics::line_value(lines[k])),
        )
    &&& forall|k: int| #[trigger]
        is_last(lines, k, "DTSTART"@) ==> ev.dtstart == crate::ics::dt_read(
            crate::ics::line_head(lines[k]),
            crate::ics::line_value(lines[k]),
        )
    &&& forall|k: int| #[trigger]
        is_last(lines, k, "DTEND"@) ==> ev.dtend == crate::ics::dt_read(
            crate::ics::line_head(lines[k]),
            crate::ics::line_value(lines[k]),
        )
    &&& forall|k: int| #[trigger]
        is_last(lines, k, "STATUS"@) ==> ev.cancelled == crate::text::same_letters(
            crate::text::trimmed(crate::ics::line_value(lines[k])),
            "CANCELLED"@,
        )
    &&& !is_there(lines, "UID"@) ==> ev.uid.len() == 0
    &&& !is_there(lines, "SUMMARY"@) ==> ev.summary.len() == 0
    &&& !is_there(lines, "DTSTART"@) ==> ev.dtstart is None
    &&& !is_there(lines, "DTEND"@) ==> ev.dtend is None
    &&& !is_there(lines, "STATUS"@) ==> !ev.cancelled
    &&& ev.has_rrule <==> is_there(lines, "RRULE"@) || is_there(lines, "RDATE"@)
    &&& ev.has_recurrence_id <==> is_there(lines, "RECURRENCE-ID"@)
}

/// Whatever stands before it, an event between a line that opens one and a line that closes it is
/// read behind those before it, as the lines between say.
pub proof fn law_event_is_read(
    before: Seq<Seq<char>>,
    first: Seq<char>,
    inner: Seq<Seq<char>>,
    last: Seq<char>,
)
    requires
        opens_event(first),
        closes_event(last),
        forall|i: int|
            0 <= i < inner.len() ==> !opens_event(#[trigger] inner[i]) && !closes_event(inner[i]),
    ensures
        ({
            let lines = before + seq![first] + inner + seq![last];
            let had = crate::ics::events_in(before).0;
            let events = crate::ics::events_in(lines).0;
            &&& events.len() == had.len() + 1
            &&& forall|i: int| 0 <= i < had.len() ==> #[trigger] events[i] == had[i]
            &&& is_said(events.last(), inner)
            &&& crate::ics::events_in(lines).1 is None
        }),
{
    let lines = before + seq![first] + inner + seq![last];
    let had = crate::ics::events_in(before).0;
    let opened = before + seq![first];
    lemma_event_line(first);
    lemma_event_line(last);
    assert(opened.drop_last() =~= before);
    assert(opened.last() == first);
    lemma_inner(opened, had, inner, inner.len() as int);
    assert(inner.take(inner.len() as int) =~= inner);
    assert(lines.drop_last() =~= opened + inner);
    assert(lines.last() == last);
    reveal_strlit("BEGIN");
    reveal_strlit("END");
    assert("BEGIN"@.len() == 5 && "END"@.len() == 3);
}

/// A line that opens or closes an event is a content line.
proof fn lemma_event_line(line: Seq<char>)
    requires
        opens_event(line) || closes_event(line),
    ensures
        crate::ics::is_content_line(line),
{
    reveal_strlit("BEGIN");
    reveal_strlit("END");
    assert("BEGIN"@.len() == 5 && "END"@.len() == 3);
}

proof fn lemma_inner(
    opened: Seq<Seq<char>>,
    had: Seq<VEventView>,
    inner: Seq<Seq<char>>,
    n: int,
)
    requires
        0 <= n <= inner.len(),
        crate::ics::events_in(opened) == (had, Some(crate::ics::blank_event())),
        forall|i: int|
            0 <= i < inner.len() ==> !opens_event(#[trigger] inner[i]) && !closes_event(inner[i]),
    ensures
        ({
            let st = crate::ics::events_in(opened + inner.take(n));
            &&& st.0 == had
            &&& st.1 is Some
            &&& is_said(st.1->0, inner.take(n))
        }),
    decreases n,
{
    if n == 0 {
        assert(opened + inner.take(0) =~= opened);
    } else {
        lemma_inner(opened, had, inner, n - 1);
        let lines = opened + inner.take(n);
        let rest = inner.take(n - 1);
        assert(lines.drop_last() =~= opened + rest);
        assert(lines.last() == inner[n - 1]);
        assert(inner.take(n).drop_last() =~= rest);
        let ev = crate::ics::events_in(opened + rest).1->0;
        let line = inner[n - 1];
        assert(!opens_event(inner[n - 1]));
        let now = if crate::ics::is_content_line(line) {
            crate::ics::with_property(
                ev,
                crate::ics::line_name(line),
                crate::ics::line_head(line),
                crate::ics::line_value(line),
            )
        } else {
            ev
        };
        lemma_said(ev, rest, line, now);
        assert(rest.push(line) =~= inner.take(n));
    }
}

/// Reading a line more.
proof fn lemma_said(ev: VEventView, lines: Seq<Seq<char>>, line: Seq<char>, now: VEventView)
    requires
        is_said(ev, lines),
        now == if crate::ics::is_content_line(line) {
            crate::ics::with_property(
                ev,
                crate::ics::line_name(line),
                crate::ics::line_head(line),
                crate::ics::line_value(line),
            )
        } else {
            ev
        },
    ensures
        is_said(now, lines.push(line)),
{
    crate::ics_laws::lemma_names_differ();
    assert("RRULE"@ != "RDATE"@ && "RRULE"@ != "DTEND"@ && "RDATE"@ != "DTEND"@) by {
        reveal_strlit("RRULE");
        reveal_strlit("RDATE");
        reveal_strlit("DTEND");
        assert("RRULE"@[1] == 'R' && "RDATE"@[1] == 'D' && "DTEND"@[0] == 'D');
        assert("RRULE"@[0] == 'R' && "RDATE"@[0] == 'R');
    }
    lemma_last(lines, line, "UID"@);
    lemma_last(lines, line, "SUMMARY"@);
    lemma_last(lines, line, "DTSTART"@);
    lemma_last(lines, line, "DTEND"@);
    lemma_last(lines, line, "STATUS"@);
    lemma_last(lines, line, "RRULE"@);
    lemma_last(lines, line, "RDATE"@);
    lemma_last(lines, line, "RECURRENCE-ID"@);
}

proof fn lemma_last(lines: Seq<Seq<char>>, line: Seq<char>, name: Seq<char>)
    ensures
        is_there(lines.push(line), name) <==> is_there(lines, name) || crate::ics::line_name(line)
            == name,
        crate::ics::line_name(line) == name ==> forall|k: int| #[trigger]
            is_last(lines.push(line), k, name) <==> k == lines.len(),
        crate::ics::line_name(line) != name ==> forall|k: int| #[trigger]
            is_last(lines.push(line), k, name) ==> is_last(lines, k, name) && lines.push(line)[k]
                == lines[k],
{
    let more = lines.push(line);
    let n = lines.len() as int;
    assert(more[n] == line);
    if is_there(lines, name) {
        let k = choose|k: int|
            0 <= k < lines.len() && crate::ics::line_name(#[trigger] lines[k]) == name;
        assert(more[k] == lines[k]);
    }
    if is_there(more, name) {
        let k = choose|k: int|
            0 <= k < more.len() && crate::ics::line_name(#[trigger] more[k]) == name;
        if k < n {
            assert(lines[k] == more[k]);
        }
    }
    assert forall|k: int| #[trigger] is_last(more, k, name) && crate::ics::line_name(line)
        != name implies is_last(lines, k, name) && more[k] == lines[k] by {
        assert forall|j: int| k < j < lines.len() implies crate::ics::line_name(
            #[trigger] lines[j],
        ) != name by {
            assert(more[j] == lines[j]);
        }
    }
    if crate::ics::line_name(line) == name {
        assert forall|k: int| #[trigger] is_last(more, k, name) <==> k == n by {
            if is_last(more, k, name) && k < n {
                assert(crate::ics::line_name(more[n]) != name);
            }
        }
    }
}

/// Reading on keeps the events that were read, and adds one exactly with a line that closes an
/// event that is open. An event is open behind the line that opens it until one closes it.
pub proof fn law_reading_on(lines: Seq<Seq<char>>, line: Seq<char>)
    ensures
        ({
            let (had, open) = crate::ics::events_in(lines);
            let (has, still) = crate::ics::events_in(lines.push(line));
            &&& closes_event(line) && open is Some ==> has == had.push(open->0)
            &&& !(closes_event(line) && open is Some) ==> has == had
            &&& still is Some <==> opens_event(line) || (open is Some && !closes_event(line))
        }),
{
    assert(lines.push(line).drop_last() =~= lines);
    assert(lines.push(line).last() == line);
    if opens_event(line) || closes_event(line) {
        lemma_event_line(line);
    }
    reveal_strlit("BEGIN");
    reveal_strlit("END");
    assert("BEGIN"@.len() == 5 && "END"@.len() == 3);
}

// ── Local readings ────────────────────────────────────────────────────────

/// What clocks show: a whole day is the same everywhere. An instant, and a clock reading in a
/// zone that is known and does not skip it, is shown as clocks less than a day ahead of or behind
/// UTC show that instant. A clock reading in no zone is shown as it is.
pub proof fn law_local_readings(dt: DtView, r: Option<(crate::date::Date, Option<(u32, u32)>)>)
    requires
        crate::mirror::is_local(dt, r),
    ensures
        match dt {
            DtView::Date(d) => r == Some((d, None::<(u32, u32)>)),
            DtView::Utc(m) => exists|offset: int|
                -86400 < offset < 86400 && #[trigger] is_shown(m, offset, r),
            DtView::Zoned(m, None) => r == Some((m.date, Some((m.hour, m.minute)))),
            DtView::Zoned(m, Some(z)) => match crate::date::zone_instant(z, m) {
                Some(u) => exists|offset: int|
                    -86400 < offset < 86400 && #[trigger] is_shown(u, offset, r),
                None => r == Some((m.date, Some((m.hour, m.minute)))),
            },
        },
{
    match dt {
        DtView::Utc(m) => lemma_shown(m, r),
        DtView::Zoned(m, Some(z)) => {
            if let Some(u) = crate::date::zone_instant(z, m) {
                lemma_shown(u, r);
            }
        },
        _ => {},
    }
}

/// Whether a reading is what clocks so many seconds ahead of UTC show at an instant, or is none
/// because that lies outside the calendar.
pub open spec fn is_shown(
    utc: Moment,
    offset: int,
    r: Option<(crate::date::Date, Option<(u32, u32)>)>,
) -> bool {
    match r {
        Some((date, time)) => exists|m: Moment| #[trigger]
            crate::date::valid_moment(m) && crate::date::second_number(m)
                == crate::date::second_number(utc) + offset && date == m.date && time == Some(
                (m.hour, m.minute),
            ),
        None => forall|m: Moment| #[trigger]
            crate::date::valid_moment(m) ==> crate::date::second_number(m)
                != crate::date::second_number(utc) + offset,
    }
}

proof fn lemma_shown(utc: Moment, r: Option<(crate::date::Date, Option<(u32, u32)>)>)
    requires
        crate::mirror::is_reading(utc, r),
    ensures
        exists|offset: int| -86400 < offset < 86400 && #[trigger] is_shown(utc, offset, r),
{
    let offset = choose|offset: int|
        -86400 < offset < 86400 && #[trigger] crate::mirror::shows(utc, offset, r);
    law_clocks(utc, offset, r);
    assert(is_shown(utc, offset, r));
}

/// What clocks so many seconds ahead of UTC show at an instant is the date, the hour and the
/// minute of the instant so many seconds later.
pub proof fn law_clocks(
    utc: Moment,
    offset: int,
    r: Option<(crate::date::Date, Option<(u32, u32)>)>,
)
    requires
        crate::mirror::shows(utc, offset, r),
    ensures
        is_shown(utc, offset, r),
{
    let n = crate::date::second_number(utc) + offset;
    match r {
        Some((date, Some((hour, minute)))) => {
            let second = choose|second: u32| #[trigger]
                crate::mirror::is_second(n, date, hour, minute, second);
            let m = Moment { date, hour, minute, second };
            assert(crate::date::valid_moment(m));
        },
        Some((_, None)) => {},
        None => {
            assert forall|m: Moment| #[trigger]
                crate::date::valid_moment(m) implies crate::date::second_number(m) != n by {
                crate::date::lemma_number_bounds(m.date);
            }
        },
    }
}

// ── Kinds of characters ───────────────────────────────────────────────────

/// White space is the tab, the ends of lines and pages, and the blanks of Unicode; the control
/// characters are those below the space and from the delete character up to, not including, the
/// no-break space.
pub proof fn law_kinds_of_characters(c: char)
    ensures
        crate::text::is_white_space(c) <==> {
            ||| c == '\t' || c == '\n' || c == '\u{b}' || c == '\u{c}' || c == '\r' || c == ' '
            ||| c == '\u{85}' || c == '\u{a0}' || c == '\u{1680}' || c == '\u{2028}'
            ||| c == '\u{2029}' || c == '\u{202f}' || c == '\u{205f}' || c == '\u{3000}'
            ||| '\u{2000}' <= c <= '\u{200a}'
        },
        crate::text::is_control(c) <==> c < ' ' || '\u{7f}' <= c < '\u{a0}',
{
}

/// Put into capitals or small letters, a text has the same letters at the same places, and none of
/// the other case.
pub proof fn law_letter_case(s: Seq<char>)
    ensures
        crate::text::upper(s).len() == s.len(),
        crate::text::lower(s).len() == s.len(),
        forall|i: int|
            0 <= i < s.len() ==> is_same_letter(s[i], #[trigger] crate::text::upper(s)[i]) && !('a'
                <= crate::text::upper(s)[i] <= 'z'),
        forall|i: int|
            0 <= i < s.len() ==> is_same_letter(s[i], #[trigger] crate::text::lower(s)[i]) && !('A'
                <= crate::text::lower(s)[i] <= 'Z'),
{
}

} // verus!
