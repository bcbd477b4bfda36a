//! Identities for new events.
use chrono::Utc;
use vstd::prelude::*;

verus! {

/// The hexadecimal digit for a number below sixteen.
pub open spec fn hex_digit(n: int) -> char {
    if n < 10 {
        ('0' as u8 + n) as u8 as char
    } else {
        ('A' as u8 + (n - 10)) as u8 as char
    }
}

/// Bytes in hexadecimal, two digits each.
pub open spec fn hex(bytes: Seq<u8>) -> Seq<char> {
    Seq::new(
        2 * bytes.len(),
        |i: int|
            if i % 2 == 0 {
                hex_digit(bytes[i / 2] as int / 16)
            } else {
                hex_digit(bytes[i / 2] as int % 16)
            },
    )
}

/// The identity that sixteen bytes give.
pub open spec fn uid_of(bytes: Seq<u8>) -> Seq<char> {
    let h = hex(bytes);
    "CCE-"@ + h.take(8) + "-"@ + h.subrange(8, 16) + "-"@ + h.skip(16)
}

fn push_hex_digit(s: &mut String, n: u8)
    requires
        n < 16,
    ensures
        final(s)@ == old(s)@.push(hex_digit(n as int)),
{
    if n < 10 {
        s.push(('0' as u8 + n) as char);
    } else {
        s.push(('A' as u8 + (n - 10)) as char);
    }
}

/// Appends the hexadecimal digits of some of the bytes.
fn append_hex(s: &mut String, bytes: &[u8; 16], from: usize, to: usize)
    requires
        from <= to <= 16,
    ensures
        final(s)@ == old(s)@ + hex(bytes@).subrange(2 * from, 2 * to),
{
    let ghost before = s@;
    let ghost h = hex(bytes@);
    let mut i: usize = from;
    assert(before + h.subrange(2 * from, 2 * from) =~= before);
    while i < to
        invariant
            from <= i <= to <= 16,
            h == hex(bytes@),
            s@ == before + h.subrange(2 * from, 2 * i),
        decreases to - i,
    {
        let b = bytes[i];
        push_hex_digit(s, b / 16);
        push_hex_digit(s, b % 16);
        assert(h[2 * i] == hex_digit(b as int / 16));
        assert(h[2 * i + 1] == hex_digit(b as int % 16));
        assert(s@ =~= before + h.subrange(2 * from, 2 * (i + 1)));
        i = i + 1;
    }
}

/// Whether a text is a time of day on a date, to the nanosecond.
pub open spec fn is_fine_stamp(text: Seq<char>) -> bool {
    exists|m: crate::date::Moment, nanos: nat|
        crate::date::valid_moment(m) && nanos < 1_000_000_000 && text
            == #[trigger] crate::date::stamp_text(m) + #[trigger] crate::text::padded(nanos, 9)
            + seq!['Z']
}

/// `Utc::now`, and `DateTime::format` with `%Y%m%dT%H%M%S%fZ`: the time it is, to the
/// nanosecond. The clock decides.
#[verifier::external_body]
fn now_fine_stamp() -> (s: String)
    ensures
        is_fine_stamp(s@),
{
    Utc::now().format("%Y%m%dT%H%M%S%fZ").to_string()
}

/// Whether an identity is one made of the time it is.
pub open spec fn is_timed_uid(uid: Seq<char>) -> bool {
    exists|stamp: Seq<char>| #[trigger] is_fine_stamp(stamp) && uid == "CCE-"@ + stamp
}

/// An identity for a new event: from random bytes, or from the time where there are none.
pub fn new_uid(random: Option<[u8; 16]>) -> (uid: String)
    ensures
        match random {
            Some(bytes) => uid@ == uid_of(bytes@),
            None => is_timed_uid(uid@),
        },
{
    let mut uid = "CCE-".to_owned();
    match random {
        Some(bytes) => {
            append_hex(&mut uid, &bytes, 0, 4);
            uid.append("-");
            append_hex(&mut uid, &bytes, 4, 8);
            uid.append("-");
            append_hex(&mut uid, &bytes, 8, 16);
            proof {
                let h = hex(bytes@);
                assert(h.take(8) =~= h.subrange(0, 8));
                assert(h.skip(16) =~= h.subrange(16, 32));
                assert(uid@ =~= uid_of(bytes@));
            }
        },
        None => {
            let stamp = now_fine_stamp();
            uid.append(stamp.as_str());
        },
    }
    uid
}

/// Different bytes give different identities.
pub proof fn law_uids_are_distinct(a: Seq<u8>, b: Seq<u8>)
    requires
        a.len() == 16,
        b.len() == 16,
        uid_of(a) == uid_of(b),
    ensures
        a == b,
{
    let (u, v) = (uid_of(a), uid_of(b));
    let (g, h) = (hex(a), hex(b));
    reveal_strlit("CCE-");
    reveal_strlit("-");
    assert forall|i: int| 0 <= i < 16 implies a[i] == b[i] by {
        let j = 2 * i;
        let at = j + 4 + (if j >= 16 {
            2int
        } else if j >= 8 {
            1
        } else {
            0
        });
        assert(u[at] == g[j] && u[at + 1] == g[j + 1]);
        assert(v[at] == h[j] && v[at + 1] == h[j + 1]);
        lemma_hex_digit(a[i] as int / 16, b[i] as int / 16);
        lemma_hex_digit(a[i] as int % 16, b[i] as int % 16);
    }
    assert(a =~= b);
}

proof fn lemma_hex_digit(m: int, n: int)
    requires
        0 <= m < 16,
        0 <= n < 16,
        hex_digit(m) == hex_digit(n),
    ensures
        m == n,
{
}

} // verus!
