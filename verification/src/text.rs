//! Text handling over sequences of characters.
//!
//! Every string is modelled by its view, a `Seq<char>`. The spec functions here say what
//! splitting, trimming, changing case, reading and writing numbers and comparing mean;
//! the executable functions next to them compute exactly that.
use vstd::prelude::*;

verus! {

/// `String::push` appends the given character to the end of the string.
pub assume_specification[ String::push ](s: &mut String, c: char)
    ensures
        final(s)@ == old(s)@.push(c),
;

// ── Searching and splitting ───────────────────────────────────────────────

/// The index of the first `c` in `s`, or the length of `s` when there is none.
pub open spec fn find(s: Seq<char>, c: char) -> int
    decreases s.len(),
{
    if s.len() == 0 || s[0] == c {
        0
    } else {
        1 + find(s.drop_first(), c)
    }
}

/// What `find` returns: nothing before it is `c`, and what stands there is.
pub proof fn lemma_find(s: Seq<char>, c: char)
    ensures
        0 <= find(s, c) <= s.len(),
        forall|i: int| 0 <= i < find(s, c) ==> s[i] != c,
        find(s, c) < s.len() ==> s[find(s, c)] == c,
    decreases s.len(),
{
    if s.len() != 0 && s[0] != c {
        let rest = s.drop_first();
        lemma_find(rest, c);
        assert forall|i: int| 0 <= i < find(s, c) implies s[i] != c by {
            if i > 0 {
                assert(rest[i - 1] == s[i]);
            }
        }
        assert(find(s, c) < s.len() ==> s[find(s, c)] == rest[find(rest, c)]);
    }
}

/// The first index at which `c` stands is what `find` returns.
pub proof fn lemma_find_is(s: Seq<char>, c: char, k: int)
    requires
        0 <= k <= s.len(),
        forall|i: int| 0 <= i < k ==> s[i] != c,
        k < s.len() ==> s[k] == c,
    ensures
        find(s, c) == k,
{
    lemma_find(s, c);
    let f = find(s, c);
    if f < k {
        assert(s[f] != c);
    } else if k < f {
        assert(s[k] != c);
    }
}

/// The pieces of `s` between the occurrences of `c`; always at least one.
pub open spec fn split_on(s: Seq<char>, c: char) -> Seq<Seq<char>>
    decreases s.len(),
{
    let k = find(s, c);
    proof {
        lemma_find(s, c);
    }
    if k >= s.len() {
        seq![s]
    } else {
        seq![s.take(k)] + split_on(s.skip(k + 1), c)
    }
}

/// Whether two texts are the same.
pub fn text_eq(a: &str, b: &str) -> (same: bool)
    ensures
        same == (a@ == b@),
{
    a.to_owned() == b.to_owned()
}

/// The characters of `s`.
pub fn to_chars(s: &str) -> (chars: Vec<char>)
    ensures
        chars@ == s@,
{
    let mut chars: Vec<char> = Vec::new();
    for c in it: s.chars()
        invariant
            chars@ == it.seq().take(it.index() as int),
            it.seq() == s@,
    {
        chars.push(c);
    }
    chars
}

/// The characters of `chars` from `from` up to, not including, `to`, as a string.
pub fn piece(chars: &Vec<char>, from: usize, to: usize) -> (s: String)
    requires
        from <= to <= chars@.len(),
    ensures
        s@ == chars@.subrange(from as int, to as int),
{
    let mut s = String::new();
    let mut i: usize = from;
    while i < to
        invariant
            from <= i <= to <= chars@.len(),
            s@ == chars@.subrange(from as int, i as int),
        decreases to - i,
    {
        s.push(chars[i]);
        i = i + 1;
    }
    s
}

/// Splits `s` at the first `c`; `None` when `c` does not occur.
pub fn split_once(s: &str, c: char) -> (parts: Option<(&str, &str)>)
    ensures
        match parts {
            Some((a, b)) => {
                &&& find(s@, c) < s@.len()
                &&& a@ == s@.take(find(s@, c))
                &&& b@ == s@.skip(find(s@, c) + 1)
            },
            None => find(s@, c) == s@.len(),
        },
{
    let chars = to_chars(s);
    let mut i: usize = 0;
    while i < chars.len()
        invariant
            chars@ == s@,
            i <= chars@.len(),
            forall|j: int| 0 <= j < i ==> s@[j] != c,
        decreases chars@.len() - i,
    {
        if chars[i] == c {
            proof {
                lemma_find_is(s@, c, i as int);
            }
            return Some((s.substring_char(0, i), s.substring_char(i + 1, chars.len())));
        }
        i = i + 1;
    }
    proof {
        lemma_find_is(s@, c, i as int);
    }
    None
}

/// The views of a list of strings.
pub open spec fn texts(list: Seq<String>) -> Seq<Seq<char>> {
    Seq::new(list.len(), |i: int| list[i]@)
}

/// The view of an optional string.
pub open spec fn opt_text(s: Option<String>) -> Option<Seq<char>> {
    match s {
        Some(t) => Some(t@),
        None => None,
    }
}

/// A text, or the empty one where there is none.
pub open spec fn or_empty(text: Option<Seq<char>>) -> Seq<char> {
    match text {
        Some(t) => t,
        None => Seq::empty(),
    }
}

/// Copies a list of texts.
pub fn copy_texts(list: &Vec<String>) -> (copy: Vec<String>)
    ensures
        texts(copy@) == texts(list@),
{
    let mut copy: Vec<String> = Vec::new();
    let mut i: usize = 0;
    while i < list.len()
        invariant
            i <= list@.len(),
            texts(copy@) == texts(list@).take(i as int),
        decreases list@.len() - i,
    {
        let ghost before = texts(copy@);
        copy.push(list[i].clone());
        assert(texts(copy@) =~= before.push(list@[i as int]@));
        i = i + 1;
    }
    assert(texts(list@).take(i as int) =~= texts(list@));
    copy
}

/// Splits `s` at every `c`.
pub fn split(s: &str, c: char) -> (parts: Vec<String>)
    ensures
        texts(parts@) == split_on(s@, c),
{
    let chars = to_chars(s);
    let mut parts: Vec<String> = Vec::new();
    let mut from: usize = 0;
    let mut i: usize = 0;
    assert(s@.skip(0) =~= s@);
    while i < chars.len()
        invariant
            chars@ == s@,
            from <= i <= chars@.len(),
            forall|j: int| from <= j < i ==> s@[j] != c,
            split_on(s@, c) == texts(parts@) + split_on(s@.skip(from as int), c),
        decreases chars@.len() - i,
    {
        if chars[i] == c {
            let ghost rest = s@.skip(from as int);
            let ghost before = texts(parts@);
            let ghost next = rest.take(i - from);
            proof {
                lemma_find_is(rest, c, i - from);
                assert(next =~= s@.subrange(from as int, i as int));
                assert(rest.skip(i - from + 1) =~= s@.skip(i + 1));
            }
            parts.push(piece(&chars, from, i));
            from = i + 1;
            assert(texts(parts@) =~= before.push(next));
            assert(before.push(next) + split_on(s@.skip(from as int), c) =~= before + (seq![next]
                + split_on(s@.skip(from as int), c)));
        }
        i = i + 1;
    }
    let ghost rest = s@.skip(from as int);
    let ghost before = texts(parts@);
    proof {
        lemma_find_is(rest, c, rest.len() as int);
        assert(rest =~= s@.subrange(from as int, i as int));
    }
    parts.push(piece(&chars, from, i));
    assert(texts(parts@) =~= before + seq![rest]);
    parts
}

/// Whether `p` occurs in `s`.
pub open spec fn contains(s: Seq<char>, p: Seq<char>) -> bool {
    exists|i: int| 0 <= i <= s.len() - p.len() && #[trigger] s.subrange(i, i + p.len()) == p
}

/// Whether the characters of `chars` that start at `at` are those of `p`.
fn stands_at(chars: &Vec<char>, at: usize, p: &Vec<char>) -> (found: bool)
    requires
        at + p@.len() <= chars@.len(),
    ensures
        found == (chars@.subrange(at as int, at + p@.len()) == p@),
{
    let ghost here = chars@.subrange(at as int, at + p@.len());
    let len: usize = chars.len();
    let mut i: usize = 0;
    while i < p.len()
        invariant
            at + p@.len() <= chars@.len() == len,
            here == chars@.subrange(at as int, at + p@.len()),
            i <= p@.len(),
            forall|j: int| 0 <= j < i ==> here[j] == p@[j],
        decreases p@.len() - i,
    {
        if chars[at + i] != p[i] {
            assert(here[i as int] != p@[i as int]);
            return false;
        }
        i = i + 1;
    }
    assert(here =~= p@);
    true
}

/// Whether `p` occurs in `s`.
pub fn has_text(s: &str, p: &str) -> (found: bool)
    ensures
        found == contains(s@, p@),
{
    let chars = to_chars(s);
    let wanted = to_chars(p);
    if wanted.len() > chars.len() {
        return false;
    }
    let last: usize = chars.len() - wanted.len();
    let mut i: usize = 0;
    while i <= last
        invariant
            chars@ == s@,
            wanted@ == p@,
            last == chars@.len() - wanted@.len(),
            i <= last + 1,
            last < chars@.len() + 1,
            chars@.len() <= usize::MAX,
            forall|j: int| 0 <= j < i ==> #[trigger] s@.subrange(j, j + p@.len()) != p@,
        decreases last + 1 - i,
    {
        if stands_at(&chars, i, &wanted) {
            return true;
        }
        if i == last {
            assert forall|j: int| 0 <= j <= s@.len() - p@.len() implies #[trigger] s@.subrange(
                j,
                j + p@.len(),
            ) != p@ by {}
            return false;
        }
        i = i + 1;
    }
    false
}

/// Whether `s` ends with `p`.
pub fn ends_with(s: &str, p: &str) -> (r: bool)
    ensures
        r == p@.is_suffix_of(s@),
{
    let chars = to_chars(s);
    let wanted = to_chars(p);
    wanted.len() <= chars.len() && stands_at(&chars, chars.len() - wanted.len(), &wanted)
}

// ── White space ───────────────────────────────────────────────────────────

/// The characters with the Unicode property `White_Space`.
pub open spec fn is_white_space(c: char) -> bool {
    let n = c as u32;
    ||| 0x9 <= n <= 0xd
    ||| n == 0x20
    ||| n == 0x85
    ||| n == 0xa0
    ||| n == 0x1680
    ||| 0x2000 <= n <= 0x200a
    ||| n == 0x2028
    ||| n == 0x2029
    ||| n == 0x202f
    ||| n == 0x205f
    ||| n == 0x3000
}

pub fn white_space(c: char) -> (r: bool)
    ensures
        r == is_white_space(c),
{
    let n: u32 = c as u32;
    (0x9 <= n && n <= 0xd) || n == 0x20 || n == 0x85 || n == 0xa0 || n == 0x1680 || (0x2000 <= n
        && n <= 0x200a) || n == 0x2028 || n == 0x2029 || n == 0x202f || n == 0x205f || n == 0x3000
}

/// The control characters: the Unicode general category `Cc`.
pub open spec fn is_control(c: char) -> bool {
    let n = c as u32;
    n <= 0x1f || 0x7f <= n <= 0x9f
}

pub fn control(c: char) -> (r: bool)
    ensures
        r == is_control(c),
{
    let n: u32 = c as u32;
    n <= 0x1f || (0x7f <= n && n <= 0x9f)
}

/// `s` without its leading white space.
pub open spec fn trim_start(s: Seq<char>) -> Seq<char>
    decreases s.len(),
{
    if s.len() > 0 && is_white_space(s[0]) {
        trim_start(s.drop_first())
    } else {
        s
    }
}

/// `s` without its trailing white space.
pub open spec fn trim_end(s: Seq<char>) -> Seq<char>
    decreases s.len(),
{
    if s.len() > 0 && is_white_space(s.last()) {
        trim_end(s.drop_last())
    } else {
        s
    }
}

/// `s` without leading and trailing white space.
pub open spec fn trimmed(s: Seq<char>) -> Seq<char> {
    trim_end(trim_start(s))
}

/// `s` without leading and trailing white space.
pub fn trim(s: &str) -> (r: &str)
    ensures
        r@ == trimmed(s@),
{
    let chars = to_chars(s);
    let mut from: usize = 0;
    assert(s@.skip(0) =~= s@);
    while from < chars.len() && white_space(chars[from])
        invariant
            chars@ == s@,
            from <= chars@.len(),
            trim_start(s@) == trim_start(s@.skip(from as int)),
        decreases chars@.len() - from,
    {
        assert(s@.skip(from as int).drop_first() =~= s@.skip(from + 1));
        from = from + 1;
    }
    let ghost rest = s@.skip(from as int);
    assert(trim_start(s@) == rest);
    let mut to: usize = chars.len();
    assert(rest =~= s@.subrange(from as int, to as int));
    while from < to && white_space(chars[to - 1])
        invariant
            chars@ == s@,
            from <= to <= chars@.len(),
            trim_end(rest) == trim_end(s@.subrange(from as int, to as int)),
        decreases to,
    {
        assert(s@.subrange(from as int, to as int).drop_last() =~= s@.subrange(
            from as int,
            to - 1,
        ));
        to = to - 1;
    }
    s.substring_char(from, to)
}

/// `s` without the characters `c` that it starts with.
pub open spec fn strip_start(s: Seq<char>, c: char) -> Seq<char>
    decreases s.len(),
{
    if s.len() > 0 && s[0] == c {
        strip_start(s.drop_first(), c)
    } else {
        s
    }
}

/// `s` without the characters `c` that it ends with.
pub open spec fn strip_end(s: Seq<char>, c: char) -> Seq<char>
    decreases s.len(),
{
    if s.len() > 0 && s.last() == c {
        strip_end(s.drop_last(), c)
    } else {
        s
    }
}

/// `s` without the characters `c` that it ends with.
pub fn trim_end_char(s: &str, c: char) -> (r: &str)
    ensures
        r@ == strip_end(s@, c),
{
    let chars = to_chars(s);
    let mut to: usize = chars.len();
    assert(s@ =~= s@.take(to as int));
    while to > 0 && chars[to - 1] == c
        invariant
            chars@ == s@,
            to <= chars@.len(),
            strip_end(s@, c) == strip_end(s@.take(to as int), c),
        decreases to,
    {
        assert(s@.take(to as int).drop_last() =~= s@.take(to - 1));
        to = to - 1;
    }
    assert(s@.take(to as int) =~= s@.subrange(0, to as int));
    s.substring_char(0, to)
}

/// `s` without the characters `c` that it starts or ends with.
pub fn trim_char(s: &str, c: char) -> (r: &str)
    ensures
        r@ == strip_end(strip_start(s@, c), c),
{
    let chars = to_chars(s);
    let mut from: usize = 0;
    assert(s@.skip(0) =~= s@);
    while from < chars.len() && chars[from] == c
        invariant
            chars@ == s@,
            from <= chars@.len(),
            strip_start(s@, c) == strip_start(s@.skip(from as int), c),
        decreases chars@.len() - from,
    {
        assert(s@.skip(from as int).drop_first() =~= s@.skip(from + 1));
        from = from + 1;
    }
    assert(s@.skip(from as int) =~= s@.subrange(from as int, s@.len() as int));
    trim_end_char(s.substring_char(from, chars.len()), c)
}

/// The number of bytes of a text in UTF-8.
pub fn byte_len(s: &str) -> (n: usize)
    ensures
        n == vstd::utf8::encode_utf8(s@).len(),
{
    s.as_bytes().len()
}

// ── Letter case ───────────────────────────────────────────────────────────

pub open spec fn upper_char(c: char) -> char {
    if 'a' <= c <= 'z' {
        (c as u8 - 32) as char
    } else {
        c
    }
}

pub open spec fn lower_char(c: char) -> char {
    if 'A' <= c <= 'Z' {
        (c as u8 + 32) as char
    } else {
        c
    }
}

/// `s` with the ASCII letters in upper case.
pub open spec fn upper(s: Seq<char>) -> Seq<char> {
    Seq::new(s.len(), |i: int| upper_char(s[i]))
}

/// `s` with the ASCII letters in lower case.
pub open spec fn lower(s: Seq<char>) -> Seq<char> {
    Seq::new(s.len(), |i: int| lower_char(s[i]))
}

fn to_upper_char(c: char) -> (r: char)
    ensures
        r == upper_char(c),
{
    if 'a' <= c && c <= 'z' {
        (c as u8 - 32) as char
    } else {
        c
    }
}

fn to_lower_char(c: char) -> (r: char)
    ensures
        r == lower_char(c),
{
    if 'A' <= c && c <= 'Z' {
        (c as u8 + 32) as char
    } else {
        c
    }
}

/// `s` with the ASCII letters in upper case.
pub fn to_upper(s: &str) -> (r: String)
    ensures
        r@ == upper(s@),
{
    let mut r = String::new();
    for c in it: s.chars()
        invariant
            r@ == upper(it.seq().take(it.index() as int)),
            it.seq() == s@,
    {
        r.push(to_upper_char(c));
    }
    r
}

/// `s` with the ASCII letters in lower case.
pub fn to_lower(s: &str) -> (r: String)
    ensures
        r@ == lower(s@),
{
    let mut r = String::new();
    for c in it: s.chars()
        invariant
            r@ == lower(it.seq().take(it.index() as int)),
            it.seq() == s@,
    {
        r.push(to_lower_char(c));
    }
    r
}

/// Whether `a` and `b` differ at most in the case of their ASCII letters.
pub open spec fn same_letters(a: Seq<char>, b: Seq<char>) -> bool {
    lower(a) == lower(b)
}

pub fn eq_ignore_case(a: &str, b: &str) -> (r: bool)
    ensures
        r == same_letters(a@, b@),
{
    to_lower(a) == to_lower(b)
}

// ── Numbers ───────────────────────────────────────────────────────────────

pub open spec fn is_digit(c: char) -> bool {
    '0' <= c <= '9'
}

pub open spec fn digit_value(c: char) -> int {
    c as int - '0' as int
}

/// The digit for a number below ten.
pub open spec fn digit(n: nat) -> char {
    ('0' as u8 + n) as u8 as char
}

/// `n` in decimal, without leading zeros.
pub open spec fn decimal(n: nat) -> Seq<char>
    decreases n,
{
    if n < 10 {
        seq![digit(n)]
    } else {
        decimal(n / 10).push(digit(n % 10))
    }
}

/// `n` in decimal, with leading zeros up to a width of `width` characters.
pub open spec fn padded(n: nat, width: nat) -> Seq<char> {
    let d = decimal(n);
    if d.len() < width {
        Seq::new((width - d.len()) as nat, |i: int| '0') + d
    } else {
        d
    }
}

/// `n` in decimal.
pub fn to_decimal(n: u64) -> (s: String)
    ensures
        s@ == decimal(n as nat),
    decreases n,
{
    let mut s = if n < 10 {
        String::new()
    } else {
        to_decimal(n / 10)
    };
    let d: u8 = (n % 10) as u8;
    s.push(('0' as u8 + d) as char);
    assert(n < 10 ==> s@ =~= seq![digit(n as nat)]);
    s
}

/// `n` in decimal, at least two digits.
pub fn two_digits(n: u32) -> (s: String)
    ensures
        s@ == padded(n as nat, 2),
{
    let mut s = String::new();
    if n < 10 {
        s.push('0');
    }
    s.append(to_decimal(n as u64).as_str());
    proof {
        lemma_decimal_len(n as nat);
        assert(s@ =~= padded(n as nat, 2));
    }
    s
}

proof fn lemma_decimal_len(n: nat)
    ensures
        decimal(n).len() >= 1,
        n < 10 ==> decimal(n).len() == 1,
        n >= 10 ==> decimal(n).len() >= 2,
    decreases n,
{
    if n >= 10 {
        lemma_decimal_len(n / 10);
    }
}

/// The number that the digits of `s` write in decimal.
pub open spec fn digits_value(s: Seq<char>) -> nat
    decreases s.len(),
{
    if s.len() == 0 {
        0
    } else {
        (digits_value(s.drop_last()) * 10 + digit_value(s.last())) as nat
    }
}

pub open spec fn all_digits(s: Seq<char>) -> bool {
    forall|i: int| 0 <= i < s.len() ==> is_digit(#[trigger] s[i])
}

/// `s` without one leading plus sign.
pub open spec fn without_plus(s: Seq<char>) -> Seq<char> {
    if s.len() > 0 && s[0] == '+' {
        s.drop_first()
    } else {
        s
    }
}

/// The unsigned 32-bit number that `s` writes: digits only, at least one of them, after at
/// most one plus sign, and no more than the type holds.
pub open spec fn number(s: Seq<char>) -> Option<u32> {
    let d = without_plus(s);
    if d.len() > 0 && all_digits(d) && digits_value(d) <= u32::MAX {
        Some(digits_value(d) as u32)
    } else {
        None
    }
}

/// Two digits read back as the number they were written for.
pub proof fn lemma_two_digits(n: u32)
    requires
        n < 100,
    ensures
        padded(n as nat, 2).len() == 2,
        all_digits(padded(n as nat, 2)),
        number(padded(n as nat, 2)) == Some(n),
{
    reveal_with_fuel(decimal, 3);
    reveal_with_fuel(digits_value, 3);
    let (tens, ones) = (n as nat / 10, n as nat % 10);
    let s = padded(n as nat, 2);
    assert(s =~= seq![digit(tens), digit(ones)]);
    assert(digit_value(digit(tens)) == tens && digit_value(digit(ones)) == ones);
    assert(s.drop_last() =~= seq![digit(tens)]);
    assert(s.drop_last().drop_last() =~= Seq::<char>::empty());
}

/// A number is written in digits.
pub proof fn lemma_padded_digits(n: nat, width: nat)
    ensures
        all_digits(padded(n, width)),
        padded(n, width).len() > 0,
{
    lemma_decimal_digits(n);
    lemma_decimal_len(n);
}

proof fn lemma_decimal_digits(n: nat)
    ensures
        all_digits(decimal(n)),
    decreases n,
{
    if n >= 10 {
        lemma_decimal_digits(n / 10);
    }
}

/// A number below ten thousand takes four digits.
pub proof fn lemma_four_digits(n: nat)
    requires
        n < 10000,
    ensures
        padded(n, 4).len() == 4,
        all_digits(padded(n, 4)),
{
    reveal_with_fuel(decimal, 5);
    let s = padded(n, 4);
    assert(s =~= seq![
        digit(n / 1000),
        digit(n / 100 % 10),
        digit(n / 10 % 10),
        digit(n % 10),
    ]);
}

/// A text that neither begins nor ends with white space is left as it is by trimming.
pub proof fn lemma_trimmed(s: Seq<char>)
    requires
        s.len() > 0 ==> !is_white_space(s[0]) && !is_white_space(s.last()),
    ensures
        trimmed(s) == s,
{
}

/// What trimming leaves neither begins nor ends with white space.
pub proof fn lemma_trimmed_ends(s: Seq<char>)
    ensures
        trimmed(s).len() > 0 ==> !is_white_space(trimmed(s)[0]) && !is_white_space(
            trimmed(s).last(),
        ),
{
    lemma_trim_start(s);
    lemma_trim_end(trim_start(s));
}

proof fn lemma_trim_start(s: Seq<char>)
    ensures
        trim_start(s).len() > 0 ==> !is_white_space(trim_start(s)[0]),
    decreases s.len(),
{
    if s.len() > 0 && is_white_space(s[0]) {
        lemma_trim_start(s.drop_first());
    }
}

proof fn lemma_trim_end(s: Seq<char>)
    ensures
        trim_end(s).len() > 0 ==> !is_white_space(trim_end(s).last()) && trim_end(s)[0] == s[0],
    decreases s.len(),
{
    if s.len() > 0 && is_white_space(s.last()) {
        lemma_trim_end(s.drop_last());
    }
}

/// The value of digits only grows as digits are added.
proof fn lemma_digits_value_grows(s: Seq<char>, k: int)
    requires
        0 <= k <= s.len(),
        all_digits(s),
    ensures
        digits_value(s.take(k)) <= digits_value(s),
    decreases s.len() - k,
{
    if k < s.len() {
        lemma_digits_value_grows(s, k + 1);
        assert(s.take(k + 1).drop_last() =~= s.take(k));
        assert(is_digit(s[k]));
    } else {
        assert(s.take(k) =~= s);
    }
}

/// Reads an unsigned number.
pub fn parse_number(s: &str) -> (r: Option<u32>)
    ensures
        r == number(s@),
{
    let chars = to_chars(s);
    let from: usize = if chars.len() > 0 && chars[0] == '+' {
        1
    } else {
        0
    };
    let ghost d = without_plus(s@);
    assert(d =~= s@.skip(from as int));
    if from == chars.len() {
        return None;
    }
    let mut value: u64 = 0;
    let mut i: usize = from;
    assert(d.take(0) =~= Seq::<char>::empty());
    while i < chars.len()
        invariant
            chars@ == s@,
            d == s@.skip(from as int),
            d == without_plus(s@),
            from <= i <= chars@.len(),
            d.len() > 0,
            forall|j: int| 0 <= j < i - from ==> is_digit(#[trigger] d[j]),
            value == digits_value(d.take(i - from)),
            value <= u32::MAX,
        decreases chars@.len() - i,
    {
        let c = chars[i];
        let ghost k = i - from;
        assert(d[k] == c);
        if !('0' <= c && c <= '9') {
            assert(!is_digit(d[k]));
            return None;
        }
        assert(d.take(k + 1).drop_last() =~= d.take(k));
        value = value * 10 + (c as u64 - '0' as u64);
        if value > u32::MAX as u64 {
            proof {
                if all_digits(d) {
                    lemma_digits_value_grows(d, k + 1);
                }
            }
            return None;
        }
        i = i + 1;
    }
    assert(d.take(d.len() as int) =~= d);
    Some(value as u32)
}

// ── Order ─────────────────────────────────────────────────────────────────

/// The order of texts: character by character, by code point; a prefix comes first.
pub open spec fn text_le(a: Seq<char>, b: Seq<char>) -> bool
    decreases a.len(),
{
    if a.len() == 0 {
        true
    } else if b.len() == 0 {
        false
    } else if a[0] == b[0] {
        text_le(a.drop_first(), b.drop_first())
    } else {
        a[0] < b[0]
    }
}

/// The strict order of texts.
pub open spec fn text_lt(a: Seq<char>, b: Seq<char>) -> bool {
    text_le(a, b) && a != b
}

/// Of two texts one comes first.
pub proof fn lemma_text_le_total(a: Seq<char>, b: Seq<char>)
    ensures
        text_le(a, b) || text_le(b, a),
        text_le(a, a),
    decreases a.len(),
{
    if a.len() > 0 {
        lemma_text_le_total(a.drop_first(), a.drop_first());
        if b.len() > 0 {
            lemma_text_le_total(a.drop_first(), b.drop_first());
        }
    }
}

/// Texts that come before each other are the same.
pub proof fn lemma_text_le_antisymmetric(a: Seq<char>, b: Seq<char>)
    requires
        text_le(a, b),
        text_le(b, a),
    ensures
        a == b,
    decreases a.len(),
{
    if a.len() > 0 && b.len() > 0 {
        lemma_text_le_antisymmetric(a.drop_first(), b.drop_first());
        assert(a =~= seq![a[0]] + a.drop_first());
        assert(b =~= seq![b[0]] + b.drop_first());
    } else {
        assert(a =~= b);
    }
}

/// The order of texts is transitive.
pub proof fn lemma_text_le_transitive(a: Seq<char>, b: Seq<char>, c: Seq<char>)
    requires
        text_le(a, b),
        text_le(b, c),
    ensures
        text_le(a, c),
    decreases a.len(),
{
    if a.len() > 0 && a[0] == b[0] && b[0] == c[0] {
        lemma_text_le_transitive(a.drop_first(), b.drop_first(), c.drop_first());
    }
}

/// Texts that agree up to `k` compare as what follows does.
proof fn lemma_text_le_skip(a: Seq<char>, b: Seq<char>, k: int)
    requires
        0 <= k <= a.len(),
        k <= b.len(),
        forall|i: int| 0 <= i < k ==> a[i] == b[i],
    ensures
        text_le(a, b) == text_le(a.skip(k), b.skip(k)),
    decreases k,
{
    if k == 0 {
        assert(a.skip(0) =~= a);
        assert(b.skip(0) =~= b);
    } else {
        assert forall|i: int| 0 <= i < k - 1 implies a.drop_first()[i] == b.drop_first()[i] by {
            assert(a[i + 1] == b[i + 1]);
        }
        lemma_text_le_skip(a.drop_first(), b.drop_first(), k - 1);
        assert(a.drop_first().skip(k - 1) =~= a.skip(k));
        assert(b.drop_first().skip(k - 1) =~= b.skip(k));
    }
}

/// Whether `a` comes before `b` or is the same.
pub fn text_at_most(a: &str, b: &str) -> (r: bool)
    ensures
        r == text_le(a@, b@),
{
    let ca = to_chars(a);
    let cb = to_chars(b);
    let mut i: usize = 0;
    while i < ca.len() && i < cb.len() && ca[i] == cb[i]
        invariant
            ca@ == a@,
            cb@ == b@,
            i <= ca@.len(),
            i <= cb@.len(),
            forall|j: int| 0 <= j < i ==> a@[j] == b@[j],
        decreases ca@.len() - i,
    {
        i = i + 1;
    }
    proof {
        lemma_text_le_skip(a@, b@, i as int);
    }
    if i == ca.len() {
        true
    } else if i == cb.len() {
        false
    } else {
        assert(a@.skip(i as int)[0] == a@[i as int]);
        assert(b@.skip(i as int)[0] == b@[i as int]);
        ca[i] < cb[i]
    }
}

} // verus!
