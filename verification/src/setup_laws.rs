//! What the accounts, the settings, the order of the file and the grid are for.
use vstd::prelude::*;

use crate::accounts::{AccountOnDisk, Backend, GoogleClientConfig, OAuthOnDisk};
use crate::config::{EntryView, Weekday};
use crate::date::Date;
use crate::record::{EventRecord, RecordView};

verus! {

// ── Accounts ──────────────────────────────────────────────────────────────

/// Whether a text ends with another.
pub open spec fn is_ended_by(text: Seq<char>, end: Seq<char>) -> bool {
    exists|front: Seq<char>| text == #[trigger] (front + end)
}

/// Whether an account is of iCloud: by its address, or by the host of its mail server, which ends
/// with the server's name or with the first colon.
pub open spec fn says_icloud(email: Seq<char>, imap: Seq<char>) -> bool {
    ||| is_ended_by(email, "@icloud.com"@)
    ||| is_ended_by(email, "@me.com"@)
    ||| is_ended_by(email, "@mac.com"@)
    ||| exists|n: int| #[trigger] is_host(imap, n) && is_ended_by(imap.take(n), ".mail.me.com"@)
}

/// Whether the first `n` characters of the name of a server are its host.
pub open spec fn is_host(imap: Seq<char>, n: int) -> bool {
    &&& 0 <= n <= imap.len()
    &&& n < imap.len() ==> imap[n] == ':'
    &&& forall|i: int| 0 <= i < n ==> #[trigger] imap[i] != ':'
}

proof fn lemma_ended(text: Seq<char>, end: Seq<char>)
    ensures
        end.is_suffix_of(text) <==> is_ended_by(text, end),
{
    if end.is_suffix_of(text) {
        let front = text.take(text.len() - end.len());
        assert(text =~= front + end);
    }
    if is_ended_by(text, end) {
        let front = choose|front: Seq<char>| text == #[trigger] (front + end);
        assert(text.subrange(text.len() - end.len(), text.len() as int) =~= end);
    }
}

/// An account is of iCloud where its address or its mail server says so.
pub proof fn law_icloud_is_told(email: Seq<char>, imap: Seq<char>)
    ensures
        crate::accounts::is_of_icloud(email, imap) <==> says_icloud(email, imap),
{
    let k = crate::text::find(imap, ':');
    crate::text::lemma_find(imap, ':');
    lemma_ended(email, "@icloud.com"@);
    lemma_ended(email, "@me.com"@);
    lemma_ended(email, "@mac.com"@);
    lemma_ended(imap.take(k), ".mail.me.com"@);
    assert(is_host(imap, k));
    assert forall|n: int| #[trigger] is_host(imap, n) implies n == k by {
        crate::text::lemma_find_is(imap, ':', n);
    }
}

/// Of the accounts, in their order, those of iCloud are taken that have a password, their own or
/// else one in the keyring.
pub proof fn law_icloud_accounts_are_taken(
    on_disk: Seq<AccountOnDisk>,
    keyring: Seq<Option<String>>,
    n: int,
)
    requires
        0 <= n,
    ensures
        crate::accounts::icloud_among(on_disk, keyring, 0).len() == 0,
        ({
            let (acc, key) = (on_disk[n], keyring[n]);
            let before = crate::accounts::icloud_among(on_disk, keyring, n);
            let after = crate::accounts::icloud_among(on_disk, keyring, n + 1);
            &&& !says_icloud(acc.email@, acc.imap@) ==> after == before
            &&& says_icloud(acc.email@, acc.imap@) && acc.password@.len() > 0 ==> after
                == before.push((acc.email@, acc.password@))
            &&& says_icloud(acc.email@, acc.imap@) && acc.password@.len() == 0 ==> match key {
                Some(password) => after == before.push((acc.email@, password@)),
                None => after == before,
            }
        }),
{
    law_icloud_is_told(on_disk[n].email@, on_disk[n].imap@);
}

/// Whether an account of Google can be used: it was signed in, and has a token.
pub open spec fn is_signed_in(acc: OAuthOnDisk) -> bool {
    acc.is_oauth && acc.refresh_token is Some && acc.refresh_token->0@.len() > 0
}

/// Whether a credential is the account's own, or that of the program where it has none.
pub open spec fn is_credential(text: Seq<char>, own: Option<String>, other: Seq<char>) -> bool {
    match own {
        Some(t) => if t@.len() == 0 {
            text == other
        } else {
            text == t@
        },
        None => text == other,
    }
}

/// Of the accounts, in their order, those of Google are taken that were signed in and have a
/// token, with their own credentials or else those of the program.
pub proof fn law_google_accounts_are_taken(
    on_disk: Seq<OAuthOnDisk>,
    acc: OAuthOnDisk,
    template: GoogleClientConfig,
)
    ensures
        crate::accounts::google_among(Seq::empty(), template).len() == 0,
        ({
            let before = crate::accounts::google_among(on_disk, template);
            let after = crate::accounts::google_among(on_disk.push(acc), template);
            &&& !is_signed_in(acc) ==> after == before
            &&& is_signed_in(acc) ==> {
                &&& after.len() == before.len() + 1
                &&& after.drop_last() == before
                &&& after.last().email == acc.email@
                &&& after.last().refresh_token == acc.refresh_token->0@
                &&& is_credential(after.last().client_id, acc.client_id, template.client_id@)
                &&& is_credential(
                    after.last().client_secret,
                    acc.client_secret,
                    template.client_secret@,
                )
            }
        }),
{
    let before = crate::accounts::google_among(on_disk, template);
    let after = crate::accounts::google_among(on_disk.push(acc), template);
    assert(on_disk.push(acc).drop_last() =~= on_disk);
    assert(on_disk.push(acc).last() == acc);
    if is_signed_in(acc) {
        assert(after.drop_last() =~= before);
    }
}

/// The records of an account are marked with its kind, a colon and its address.
pub proof fn law_sources_say_the_account(b: Backend)
    ensures
        match b {
            Backend::ICloud(a) => crate::accounts::source_of(b) == "icloud:"@ + a.email@
                && crate::accounts::email_of(b) == a.email@ && crate::accounts::kind_of(b)
                == "icloud"@,
            Backend::Google(a) => crate::accounts::source_of(b) == "google:"@ + a.email@
                && crate::accounts::email_of(b) == a.email@ && crate::accounts::kind_of(b)
                == "google"@,
        },
{
    reveal_strlit("icloud");
    reveal_strlit("google");
    reveal_strlit("icloud:");
    reveal_strlit("google:");
    reveal_strlit(":");
    assert("icloud"@ + ":"@ =~= "icloud:"@);
    assert("google"@ + ":"@ =~= "google:"@);
    match b {
        Backend::ICloud(a) => {
            assert(crate::accounts::source_of(b) =~= "icloud:"@ + a.email@);
        },
        Backend::Google(a) => {
            assert(crate::accounts::source_of(b) =~= "google:"@ + a.email@);
        },
    }
}

/// Typed events go to an account exactly where it is of the kind they go to and none before it
/// is.
pub proof fn law_typed_events_go_to_the_first(backends: Seq<Backend>, kind: Seq<char>, at: int)
    requires
        0 <= at < backends.len(),
    ensures
        at == crate::run::first_of_kind(backends, kind) <==> is_of_kind(backends[at], kind)
            && forall|i: int| 0 <= i < at ==> !is_of_kind(#[trigger] backends[i], kind),
    decreases backends.len(),
{
    lemma_first_of_kind(backends, kind);
    let first = crate::run::first_of_kind(backends, kind);
    if at == first {
    } else if at > first {
        assert(is_of_kind(backends[first], kind));
    } else {
        assert(!is_of_kind(backends[at], kind));
    }
}

/// Whether an account is of the kind that a word says.
pub open spec fn is_of_kind(b: Backend, kind: Seq<char>) -> bool {
    match b {
        Backend::ICloud(_) => kind == "icloud"@,
        Backend::Google(_) => kind == "google"@,
    }
}

proof fn lemma_first_of_kind(backends: Seq<Backend>, kind: Seq<char>)
    ensures
        ({
            let first = crate::run::first_of_kind(backends, kind);
            &&& 0 <= first <= backends.len()
            &&& first < backends.len() ==> is_of_kind(backends[first], kind)
            &&& forall|i: int| 0 <= i < first ==> !is_of_kind(#[trigger] backends[i], kind)
        }),
    decreases backends.len(),
{
    if backends.len() > 0 {
        let rest = backends.drop_first();
        lemma_first_of_kind(rest, kind);
        let first = crate::run::first_of_kind(backends, kind);
        assert forall|i: int| 0 <= i < first implies !is_of_kind(#[trigger] backends[i], kind) by {
            if i > 0 {
                assert(rest[i - 1] == backends[i]);
            }
        }
    }
}

/// Events are mirrored from 60 days back to 400 days ahead.
pub proof fn law_window_is_wide()
    ensures
        crate::run::PAST_DAYS == 60,
        crate::run::FUTURE_DAYS == 400,
{
}

// ── Settings ──────────────────────────────────────────────────────────────

/// What an entry of a setting says is that of the first entry with its name; without one it says
/// nothing.
pub proof fn law_first_entry_counts(entries: Seq<EntryView>, name: Option<Seq<char>>)
    ensures
        forall|i: int|
            0 <= i < entries.len() && (#[trigger] entries[i]).name == name && (forall|j: int|
                0 <= j < i ==> (#[trigger] entries[j]).name != name) ==> crate::config::value_of(
                entries,
                name,
            ) == entries[i].value,
        (forall|j: int| 0 <= j < entries.len() ==> (#[trigger] entries[j]).name != name)
            ==> crate::config::value_of(entries, name) is None,
    decreases entries.len(),
{
    if entries.len() > 0 {
        let rest = entries.drop_first();
        law_first_entry_counts(rest, name);
        assert(forall|j: int| 0 <= j < rest.len() ==> #[trigger] rest[j] == entries[j + 1]);
        assert forall|i: int|
            0 <= i < entries.len() && (#[trigger] entries[i]).name == name && (forall|j: int|
                0 <= j < i ==> (#[trigger] entries[j]).name != name) implies crate::config::value_of(
            entries,
            name,
        ) == entries[i].value by {
            if i > 0 {
                assert(entries[0].name != name);
                assert(rest[i - 1] == entries[i]);
                assert forall|j: int| 0 <= j < i - 1 implies (#[trigger] rest[j]).name != name by {
                    assert(entries[j + 1].name != name);
                }
            }
        }
        if forall|j: int| 0 <= j < entries.len() ==> (#[trigger] entries[j]).name != name {
            assert(entries[0].name != name);
            assert forall|j: int| 0 <= j < rest.len() implies (#[trigger] rest[j]).name != name by {
                assert(entries[j + 1].name != name);
            }
        }
    }
}

/// Whether a text is a word, in any letter case.
pub open spec fn is_word(text: Seq<char>, word: Seq<char>) -> bool {
    text.len() == word.len() && forall|i: int|
        0 <= i < text.len() ==> crate::parse_laws::is_same_letter(#[trigger] text[i], word[i])
}

/// Where typed events go is what the first argument of the setting says, in lower case, and the
/// calendar what its property says; nowhere where there is no such argument.
pub proof fn law_target_is_read(entries: Seq<EntryView>)
    ensures
        match crate::config::target_of(entries) {
            Some((kind, calendar)) => {
                &&& crate::config::value_of(entries, None) is Some
                &&& is_word(kind, crate::config::value_of(entries, None)->0)
                &&& forall|i: int| 0 <= i < kind.len() ==> !('A' <= #[trigger] kind[i] <= 'Z')
                &&& calendar == crate::config::value_of(entries, Some("calendar"@))
            },
            None => crate::config::value_of(entries, None) is None,
        },
{
}

/// Weeks begin with Sunday or with Saturday where the setting says so, in full or by three
/// letters and in any letter case, and else with Monday.
pub proof fn law_week_start_is_read(value: Option<Seq<char>>)
    ensures
        ({
            let day = crate::config::week_start_of(value);
            let sunday = value is Some && (is_word(value->0, "sunday"@) || is_word(
                value->0,
                "sun"@,
            ));
            let saturday = value is Some && (is_word(value->0, "saturday"@) || is_word(
                value->0,
                "sat"@,
            ));
            &&& day == Weekday::Sun <==> sunday
            &&& day == Weekday::Sat <==> saturday
            &&& day == Weekday::Mon <==> !sunday && !saturday
        }),
{
    if let Some(v) = value {
        reveal_strlit("sunday");
        reveal_strlit("sun");
        reveal_strlit("saturday");
        reveal_strlit("sat");
        lemma_word(v, "sunday"@);
        lemma_word(v, "sun"@);
        lemma_word(v, "saturday"@);
        lemma_word(v, "sat"@);
        let v = crate::text::lower(v);
        if v == "sunday"@ || v == "sun"@ {
            assert(v[1] == 'u');
        }
        if v == "saturday"@ || v == "sat"@ {
            assert(v[1] == 'a');
        }
    }
}

proof fn lemma_word(text: Seq<char>, word: Seq<char>)
    requires
        forall|i: int| 0 <= i < word.len() ==> 'a' <= #[trigger] word[i] <= 'z',
    ensures
        crate::text::lower(text) == word <==> is_word(text, word),
{
    let low = crate::text::lower(text);
    if low == word {
        assert forall|i: int| 0 <= i < text.len() implies crate::parse_laws::is_same_letter(
            #[trigger] text[i],
            word[i],
        ) by {
            assert(low[i] == word[i]);
        }
    }
    if is_word(text, word) {
        assert forall|i: int| 0 <= i < low.len() implies low[i] == word[i] by {
            assert(crate::parse_laws::is_same_letter(text[i], word[i]));
        }
        assert(low =~= word);
    }
}

// ── Files ─────────────────────────────────────────────────────────────────

/// The files are below the data directory where that is an absolute path, and else below the
/// usual one in the home directory; one separator stands between a directory and what is below
/// it.
pub proof fn law_files_have_a_place(xdg: Option<Seq<u8>>, home: Option<Seq<u8>>, file: Seq<u8>)
    ensures
        ({
            let dir = crate::paths::directory(xdg, home);
            let own = xdg is Some && xdg->0.len() > 0 && xdg->0[0] == 47;
            &&& own ==> is_below(xdg->0, crate::paths::bytes_of("cce/calendar"@), dir)
            &&& !own ==> exists|data: Seq<u8>|
                is_below(
                    match home {
                        Some(h) => h,
                        None => Seq::empty(),
                    },
                    crate::paths::bytes_of(".local/share"@),
                    data,
                ) && #[trigger] is_below(data, crate::paths::bytes_of("cce/calendar"@), dir)
            &&& is_below(dir, file, crate::paths::joined(dir, file))
        }),
{
    let dir = crate::paths::directory(xdg, home);
    let base = match home {
        Some(h) => h,
        None => Seq::empty(),
    };
    let data = crate::paths::joined(base, crate::paths::bytes_of(".local/share"@));
    lemma_below(base, crate::paths::bytes_of(".local/share"@));
    lemma_below(data, crate::paths::bytes_of("cce/calendar"@));
    if let Some(p) = xdg {
        lemma_below(p, crate::paths::bytes_of("cce/calendar"@));
    }
    lemma_below(dir, file);
    let own = xdg is Some && xdg->0.len() > 0 && xdg->0[0] == 47;
    if !own {
        assert(is_below(data, crate::paths::bytes_of("cce/calendar"@), dir));
    }
}

/// Whether a path leads from a directory to something below it.
pub open spec fn is_below(dir: Seq<u8>, part: Seq<u8>, path: Seq<u8>) -> bool {
    if dir.len() > 0 && dir[dir.len() - 1] != 47 {
        path == dir + seq![47u8] + part
    } else {
        path == dir + part
    }
}

proof fn lemma_below(dir: Seq<u8>, part: Seq<u8>)
    ensures
        is_below(dir, part, crate::paths::joined(dir, part)),
{
    assert(dir.push(47u8) + part =~= dir + seq![47u8] + part);
}

// ── Identities ────────────────────────────────────────────────────────────

/// Whether a character is the hexadecimal digit, in upper case, for a number.
pub open spec fn is_hex_for(c: char, n: int) -> bool {
    ||| '0' <= c <= '9' && c as int == 48 + n
    ||| 'A' <= c <= 'F' && c as int == 55 + n
}

/// An identity made of sixteen bytes is a mark, four bytes, four bytes and eight bytes, each byte
/// in two hexadecimal digits, with hyphens between.
pub proof fn law_identities_say_their_bytes(bytes: Seq<u8>)
    requires
        bytes.len() == 16,
    ensures
        ({
            let u = crate::uid::uid_of(bytes);
            &&& u.len() == 38
            &&& u.take(4) == "CCE-"@
            &&& u[12] == '-'
            &&& u[21] == '-'
            &&& forall|i: int|
                0 <= i < 16 ==> {
                    let at = 4 + 2 * i + (if i >= 8 {
                        2int
                    } else if i >= 4 {
                        1
                    } else {
                        0
                    });
                    &&& is_hex_for(u[at], #[trigger] bytes[i] as int / 16)
                    &&& is_hex_for(u[at + 1], bytes[i] as int % 16)
                }
        }),
{
    let u = crate::uid::uid_of(bytes);
    let h = crate::uid::hex(bytes);
    reveal_strlit("CCE-");
    reveal_strlit("-");
    assert(u.take(4) =~= "CCE-"@);
    assert forall|i: int| 0 <= i < 16 implies {
        let at = 4 + 2 * i + (if i >= 8 {
            2int
        } else if i >= 4 {
            1
        } else {
            0
        });
        &&& is_hex_for(u[at], #[trigger] bytes[i] as int / 16)
        &&& is_hex_for(u[at + 1], bytes[i] as int % 16)
    } by {
        let at = 4 + 2 * i + (if i >= 8 {
            2int
        } else if i >= 4 {
            1
        } else {
            0
        });
        assert(u[at] == h[2 * i]);
        assert(u[at + 1] == h[2 * i + 1]);
    }
}

// ── The order of the file ─────────────────────────────────────────────────

/// Whether a text comes before another: it is a part of its beginning, or the first character in
/// which they differ is a smaller one.
pub open spec fn comes_before(a: Seq<char>, b: Seq<char>) -> bool {
    ||| a.len() < b.len() && b.take(a.len() as int) == a
    ||| exists|k: int| #[trigger] is_smaller_at(a, b, k)
}

/// Whether two texts are the same up to a place, and the first has a smaller character there.
pub open spec fn is_smaller_at(a: Seq<char>, b: Seq<char>, k: int) -> bool {
    0 <= k < a.len() && k < b.len() && a.take(k) == b.take(k) && a[k] < b[k]
}

/// A text is at most another where it is the same or comes before it.
pub proof fn law_texts_in_order(a: Seq<char>, b: Seq<char>)
    ensures
        crate::text::text_le(a, b) <==> a == b || comes_before(a, b),
    decreases a.len(),
{
    if a.len() == 0 {
        assert(b.take(0) =~= a);
        if b.len() == 0 {
            assert(a =~= b);
        }
    } else if b.len() == 0 {
    } else if a[0] == b[0] {
        let (x, y) = (a.drop_first(), b.drop_first());
        law_texts_in_order(x, y);
        assert(a =~= seq![a[0]] + x);
        assert(b =~= seq![b[0]] + y);
        if a == b {
            assert(x == y);
        }
        if x.len() < y.len() && y.take(x.len() as int) == x {
            assert(b.take(a.len() as int) =~= seq![b[0]] + y.take(x.len() as int));
        }
        if a.len() < b.len() && b.take(a.len() as int) == a {
            assert(y.take(x.len() as int) =~= b.take(a.len() as int).drop_first());
        }
        if exists|k: int| #[trigger] is_smaller_at(x, y, k) {
            let k = choose|k: int| #[trigger] is_smaller_at(x, y, k);
            assert(a.take(k + 1) =~= seq![a[0]] + x.take(k));
            assert(b.take(k + 1) =~= seq![b[0]] + y.take(k));
            assert(is_smaller_at(a, b, k + 1));
        }
        if exists|k: int| #[trigger] is_smaller_at(a, b, k) {
            let k = choose|k: int| #[trigger] is_smaller_at(a, b, k);
            assert(x.take(k - 1) =~= a.take(k).drop_first());
            assert(y.take(k - 1) =~= b.take(k).drop_first());
            assert(is_smaller_at(x, y, k - 1));
        }
    } else {
        assert(a.take(0) =~= b.take(0));
        if a[0] < b[0] {
            assert(is_smaller_at(a, b, 0));
        } else {
            if a.len() < b.len() && b.take(a.len() as int) == a {
                assert(b.take(a.len() as int)[0] == b[0]);
            }
            if exists|k: int| #[trigger] is_smaller_at(a, b, k) {
                let k = choose|k: int| #[trigger] is_smaller_at(a, b, k);
                if k > 0 {
                    assert(a.take(k)[0] == b.take(k)[0]);
                }
            }
        }
    }
}

/// Whether a record stands before another in the file: it is of an earlier date; or of the same
/// date and only it has a time, or an earlier one; or they are at the same time and it has an
/// earlier title.
pub open spec fn stands_before(a: RecordView, b: RecordView) -> bool {
    ||| comes_before(a.date, b.date)
    ||| a.date == b.date && a.time is Some && b.time is None
    ||| a.date == b.date && a.time is Some && b.time is Some && comes_before(a.time->0, b.time->0)
    ||| a.date == b.date && a.time == b.time && comes_before(a.title, b.title)
}

/// A record may stand ahead of another exactly where it comes before it, or has its date, time and
/// title.
pub proof fn law_records_in_order(a: RecordView, b: RecordView)
    ensures
        crate::record::record_le(a, b) <==> stands_before(a, b) || (a.date == b.date && a.time
            == b.time && a.title == b.title),
{
    law_texts_in_order(a.date, b.date);
    law_texts_in_order(a.title, b.title);
    lemma_not_before_itself(a.date);
    if a.time is Some && b.time is Some {
        law_texts_in_order(a.time->0, b.time->0);
        lemma_not_before_itself(a.time->0);
    }
}

proof fn lemma_not_before_itself(a: Seq<char>)
    ensures
        !comes_before(a, a),
{
}

/// A sorted file holds the records it held, each as often; no record stands behind one that it
/// comes before; and records that are at the same place keep their order.
pub proof fn law_file_is_sorted(before: Seq<EventRecord>, after: Seq<EventRecord>)
    requires
        crate::order::sorted(after),
        crate::order::stably_rearranged(before, after),
    ensures
        before.to_multiset() == after.to_multiset(),
        forall|i: int, j: int|
            0 <= i < j < after.len() ==> !stands_before((#[trigger] after[j])@, (
            #[trigger] after[i])@),
        forall|x: EventRecord|
            before.filter(says_the_same(x)) == #[trigger] after.filter(says_the_same(x)),
{
    assert forall|i: int, j: int| 0 <= i < j < after.len() implies !stands_before(
        (#[trigger] after[j])@,
        (#[trigger] after[i])@,
    ) by {
        let (a, b) = (after[i]@, after[j]@);
        lemma_use_sorted(after, i, j);
        law_records_in_order(a, b);
        law_records_in_order(b, a);
        if stands_before(b, a) {
            lemma_one_way(a, b);
        }
    }
    assert forall|x: EventRecord|
        before.filter(says_the_same(x)) == #[trigger] after.filter(says_the_same(x)) by {
        let same = says_the_same(x);
        let place = |y: EventRecord| crate::order::same_place(x, y);
        assert forall|y: EventRecord| #[trigger] same(y) == place(y) by {
            law_records_in_order(x@, y@);
            law_records_in_order(y@, x@);
            if place(y) {
                lemma_one_way(x@, y@);
            }
        }
        assert(same =~= place);
        assert(crate::order::at_place(before, x) == crate::order::at_place(after, x));
    }
}

/// Whether a record has the date, the time and the title of another.
pub open spec fn says_the_same(x: EventRecord) -> spec_fn(EventRecord) -> bool {
    |y: EventRecord| x@.date == y@.date && x@.time == y@.time && x@.title == y@.title
}

proof fn lemma_use_sorted(s: Seq<EventRecord>, i: int, j: int)
    requires
        crate::order::sorted(s),
        0 <= i <= j < s.len(),
    ensures
        crate::record::record_le(s[i]@, s[j]@),
{
    assert(crate::order::Ranked::at_most(&s[i], &s[j]));
}

/// Two records that may each stand ahead of the other are at the same place.
proof fn lemma_one_way(a: RecordView, b: RecordView)
    requires
        crate::record::record_le(a, b),
        crate::record::record_le(b, a),
    ensures
        a.date == b.date,
        a.time == b.time,
        a.title == b.title,
        !stands_before(a, b),
        !stands_before(b, a),
{
    if a.date != b.date {
        crate::text::lemma_text_le_antisymmetric(a.date, b.date);
    } else if a.time is Some && b.time is Some && a.time != b.time {
        crate::text::lemma_text_le_antisymmetric(a.time->0, b.time->0);
    } else if a.time == b.time {
        crate::text::lemma_text_le_antisymmetric(a.title, b.title);
    }
    lemma_not_before_itself(a.date);
    lemma_not_before_itself(a.title);
    if a.time is Some {
        lemma_not_before_itself(a.time->0);
    }
}

/// Identities are listed in the order of texts, each once, and no others.
pub proof fn law_identities_in_order(texts: Set<Seq<char>>)
    requires
        texts.finite(),
    ensures
        ({
            let keys = crate::uid_map::in_order(texts);
            &&& forall|i: int, j: int|
                0 <= i < j < keys.len() ==> comes_before(#[trigger] keys[i], #[trigger] keys[j])
            &&& forall|t: Seq<char>| #[trigger] texts.contains(t) <==> keys.contains(t)
        }),
{
    let keys = crate::uid_map::in_order(texts);
    crate::uid_map::lemma_listed(texts);
    assert forall|i: int, j: int| 0 <= i < j < keys.len() implies comes_before(
        #[trigger] keys[i],
        #[trigger] keys[j],
    ) by {
        assert(crate::text::text_lt(keys[i], keys[j]));
        law_texts_in_order(keys[i], keys[j]);
    }
    assert forall|t: Seq<char>| #[trigger] texts.contains(t) <==> keys.contains(t) by {
        assert(keys.to_set().contains(t) <==> keys.contains(t));
    }
}

// ── Numbers ───────────────────────────────────────────────────────────────

/// A number in decimal has no leading zero, and its last digit is what is left over tens; what
/// stands before that is the number of tens.
pub proof fn law_decimals(n: nat)
    ensures
        ({
            let s = crate::text::decimal(n);
            &&& s.len() > 0
            &&& s[s.len() - 1] as int == 48 + n % 10
            &&& n < 10 ==> s.len() == 1
            &&& n >= 10 ==> s.drop_last() == crate::text::decimal(n / 10)
        }),
{
    if n >= 10 {
        assert(crate::text::decimal(n).drop_last() =~= crate::text::decimal(n / 10));
    }
}

/// A number is padded with zeros up to its width, and not beyond.
pub proof fn law_padding(n: nat, width: nat)
    ensures
        ({
            let (s, d) = (crate::text::padded(n, width), crate::text::decimal(n));
            &&& s.len() >= width
            &&& s.len() > d.len() ==> s.len() == width
            &&& s.len() >= d.len()
            &&& s.skip(s.len() - d.len()) == d
            &&& forall|i: int| 0 <= i < s.len() - d.len() ==> #[trigger] s[i] == '0'
        }),
{
    let (s, d) = (crate::text::padded(n, width), crate::text::decimal(n));
    assert(s.skip(s.len() - d.len()) =~= d);
}

/// A text is read as a number exactly where it is made of digits, behind at most one plus sign,
/// and the number is not too large; a digit behind a text takes the number ten times further.
pub proof fn law_numbers_are_read(s: Seq<char>, c: char)
    requires
        '0' <= c <= '9',
    ensures
        crate::text::number(Seq::empty()) is None,
        crate::text::number(seq!['+']) is None,
        crate::text::number(seq![c]) == Some((c as int - 48) as u32),
        crate::text::number(seq!['+', c]) == Some((c as int - 48) as u32),
        s.len() > 0 && s != seq!['+'] ==> match crate::text::number(s) {
            Some(n) => crate::text::number(s.push(c)) == if n * 10 + (c as int - 48)
                <= 0xffff_ffff {
                Some((n * 10 + (c as int - 48)) as u32)
            } else {
                None
            },
            None => crate::text::number(s.push(c)) is None,
        },
{
    reveal_with_fuel(crate::text::digits_value, 3);
    let one = seq![c];
    assert(one.drop_last() =~= Seq::<char>::empty());
    assert(seq!['+'].drop_first() =~= Seq::<char>::empty());
    assert(seq!['+', c].drop_first() =~= one);
    if s.len() > 0 && s != seq!['+'] {
        let d = crate::text::without_plus(s);
        let e = crate::text::without_plus(s.push(c));
        assert(e =~= d.push(c));
        assert(e.drop_last() =~= d);
        assert(e.last() == c);
        if s.len() == 1 && s[0] == '+' {
            assert(s =~= seq!['+']);
        }
        assert(d.len() > 0);
        if crate::text::all_digits(e) {
            assert forall|i: int| 0 <= i < d.len() implies crate::text::is_digit(
                #[trigger] d[i],
            ) by {
                assert(e[i] == d[i]);
            }
        }
        if crate::text::all_digits(d) {
            assert forall|i: int| 0 <= i < e.len() implies crate::text::is_digit(
                #[trigger] e[i],
            ) by {
                if i < d.len() {
                    assert(e[i] == d[i]);
                }
            }
        }
    }
}

/// Nothing but digits and a plus sign in front is read as a number.
pub proof fn law_other_texts_are_no_numbers(s: Seq<char>, i: int)
    requires
        0 <= i < s.len(),
        !('0' <= s[i] <= '9'),
        i > 0 || s[i] != '+',
    ensures
        crate::text::number(s) is None,
{
    let d = crate::text::without_plus(s);
    if s[0] == '+' {
        assert(d[i - 1] == s[i]);
    } else {
        assert(d[i] == s[i]);
    }
}

// ── The grid ──────────────────────────────────────────────────────────────

/// The number of days of a month is the last day that it has.
pub proof fn law_months_have_their_days(year: i32, month: u32)
    requires
        1 <= month <= 12,
        crate::date::MIN_YEAR <= year,
        year < crate::date::MAX_YEAR,
    ensures
        forall|day: u32| #[trigger]
            crate::date::valid_date(Date { year, month, day }) <==> 1 <= day
                <= crate::month::month_days(year as int, month as int),
        crate::month::month_days(year as int, month as int) == if month == 2 {
            if year % 4 == 0 && (year % 100 != 0 || year % 400 == 0) {
                29int
            } else {
                28
            }
        } else if month == 4 || month == 6 || month == 9 || month == 11 {
            30
        } else {
            31
        },
{
}

/// Each day is the day of the week behind that of the day before it, and a week has seven days.
pub proof fn law_weeks(d: Date, e: Date, k: int)
    requires
        crate::date::day_number(e) == crate::date::day_number(d) + k,
    ensures
        0 <= crate::month::weekday_of(d) < 7,
        (crate::month::weekday_of(d) + k) % 7 == crate::month::weekday_of(e),
{
}

/// A day is so many days into a week that going back leads to the first day of the week, less
/// than a week before.
pub proof fn law_days_into_a_week(day: Weekday, week_start: Weekday)
    ensures
        ({
            let (n, w) = (
                crate::month::from_monday(day),
                crate::month::from_monday(week_start),
            );
            let into = crate::month::into_week(n, w);
            &&& 0 <= into < 7
            &&& (n - into) % 7 == w
        }),
        crate::month::from_monday(Weekday::Mon) == 0,
        crate::month::from_monday(Weekday::Tue) == 1,
        crate::month::from_monday(Weekday::Wed) == 2,
        crate::month::from_monday(Weekday::Thu) == 3,
        crate::month::from_monday(Weekday::Fri) == 4,
        crate::month::from_monday(Weekday::Sat) == 5,
        crate::month::from_monday(Weekday::Sun) == 6,
{
}

/// The first of a month stands in the first week of its grid, which has six of them.
pub proof fn law_month_begins_in_the_first_week(view: (i32, u32), today: Date, week_start: Weekday)
    requires
        crate::date::valid_date(Date { year: view.0, month: view.1, day: 1 }),
    ensures
        ({
            let first = crate::date::day_number(Date { year: view.0, month: view.1, day: 1 });
            let start = crate::month::grid_start(view, today, week_start);
            &&& start <= first < start + 7
            &&& first - 6 >= crate::date::day_number(crate::date::min_date()) ==> (start - 1) % 7
                == crate::month::from_monday(week_start)
            &&& crate::month::GRID_DAYS == 42
        }),
{
}

/// The cells of a grid follow each other day by day, seven in a row; a cell says whether its day
/// is of the month that is shown, is selected and is today.
pub proof fn law_cells(
    c: crate::calendar::CalendarView,
    i: int,
    j: int,
    a: crate::display::Cell,
    b: crate::display::Cell,
)
    requires
        crate::display::is_cell(c, i, a),
        crate::display::is_cell(c, j, b),
    ensures
        a.row * 7 + a.col == i,
        a.col < 7,
        crate::date::day_number(b.date) - crate::date::day_number(a.date) == j - i,
        i == 0 ==> crate::date::day_number(a.date) == crate::month::grid_start(
            c.view,
            c.today,
            c.week_start,
        ),
        a.in_month <==> a.date.year == c.view.0 && a.date.month == c.view.1,
        a.is_selected <==> a.date == c.selected,
        a.is_today <==> a.date == c.today,
{
}

/// Months and days of the week have their names.
pub proof fn law_names(n: int)
    ensures
        1 <= n <= 12 ==> crate::display::month_name(n) == seq![
            "January"@,
            "February"@,
            "March"@,
            "April"@,
            "May"@,
            "June"@,
            "July"@,
            "August"@,
            "September"@,
            "October"@,
            "November"@,
            "December"@,
        ][n - 1],
        0 <= n < 7 ==> crate::display::weekday_name(n) == seq![
            "Mon"@,
            "Tue"@,
            "Wed"@,
            "Thu"@,
            "Fri"@,
            "Sat"@,
            "Sun"@,
        ][n],
{
}

// ── The plan in words ─────────────────────────────────────────────────────

/// A pass says, line by line, each event that it is about to create, to change and to delete, in
/// this order, and then how much it mirrors.
pub proof fn law_plans_are_told(p: crate::sync::PassView)
    ensures
        ({
            let lines = crate::sync::preview_lines(p);
            let (n, m, l) = (p.plan.creates.len(), p.plan.updates.len(), p.plan.deletes.len());
            &&& lines.len() == n + m + l + 1
            &&& forall|k: int|
                0 <= k < n ==> #[trigger] lines[k] == "push new:    "@ + told(
                    p.records[p.plan.creates[k]],
                )
            &&& forall|k: int|
                n <= k < n + m ==> #[trigger] lines[k] == "push change: "@ + told(
                    p.plan.updates[k - n].1,
                ) + " ("@ + p.plan.updates[k - n].0 + ")"@
            &&& forall|k: int|
                n + m <= k < n + m + l ==> #[trigger] lines[k] == "push delete: "@
                    + p.state[p.plan.deletes[k - n - m]].title + " ("@ + p.plan.deletes[k - n - m]
                    + ")"@
            &&& lines.last() == p.source + ": "@ + crate::text::decimal(
                crate::sync::all_instances(
                    crate::uid_map::in_order(p.remote.dom()),
                    p.remote,
                ).len(),
            ) + " record(s) mirrored"@
        }),
{
    let lines = crate::sync::preview_lines(p);
    let (n, m, l) = (p.plan.creates.len(), p.plan.updates.len(), p.plan.deletes.len());
    assert forall|k: int| n <= k < n + m implies #[trigger] lines[k] == "push change: "@ + told(
        p.plan.updates[k - n].1,
    ) + " ("@ + p.plan.updates[k - n].0 + ")"@ by {
        let u = p.plan.updates[k - n];
        assert("push change: "@ + told(u.1) + (" ("@ + u.0 + ")"@) =~= "push change: "@ + told(u.1)
            + " ("@ + u.0 + ")"@);
    }
    assert forall|k: int| n + m <= k < n + m + l implies #[trigger] lines[k] == "push delete: "@
        + p.state[p.plan.deletes[k - n - m]].title + " ("@ + p.plan.deletes[k - n - m] + ")"@ by {
        let u = p.plan.deletes[k - n - m];
        assert("push delete: "@ + p.state[u].title + (" ("@ + u + ")"@) =~= "push delete: "@
            + p.state[u].title + " ("@ + u + ")"@);
    }
}

/// A record in words: its date, its time or dashes, and its title.
pub open spec fn told(r: RecordView) -> Seq<char> {
    if r.time is Some {
        r.date + seq![' '] + r.time->0 + seq![' '] + r.title
    } else {
        r.date + seq![' '] + "-----"@ + seq![' '] + r.title
    }
}

/// The year in the title of the window is its number, with a sign where it is negative.
pub proof fn law_years_are_written(n: int)
    ensures
        n >= 0 ==> crate::display::signed_text(n) == crate::text::decimal(n as nat),
        n < 0 ==> crate::display::signed_text(n) == "-"@ + crate::display::signed_text(-n),
{
}

/// The line at the bottom says what went wrong; else how to delete exactly where an event is
/// selected.
pub proof fn law_hints(c: crate::calendar::CalendarView)
    ensures
        c.status is Some ==> crate::display::hint_text(c) == c.status->0,
        c.status is None ==> crate::display::hint_text(c) == if c.sel_event is None {
            "n new · t today · pgup/pgdn month"@
        } else {
            "d delete · n new · t today"@
        },
{
}

// ── Services ──────────────────────────────────────────────────────────────

/// iCloud and the calendar of Google are asked at these addresses, and calendars are told by this
/// name of CalDAV.
pub proof fn law_services_have_addresses()
    ensures
        crate::caldav::CALDAV_ROOT@ == "https://caldav.icloud.com/"@,
        crate::google::CALENDAR_API@ == "https://www.googleapis.com/calendar/v3"@,
        crate::caldav::CALDAV_NS@ == "urn:ietf:params:xml:ns:caldav"@,
{
}

} // verus!
