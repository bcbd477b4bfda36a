//! Reading and writing JSON texts.
//!
//! A JSON value is the text that writes it. serde_json reads and writes these; here its answers
//! have names, and what is made of them is the library's own.
use serde_json::Value;
use vstd::prelude::*;

verus! {

/// What is wrong with a text as JSON; none when it is JSON.
pub uninterp spec fn json_fault(text: Seq<char>) -> Option<Seq<char>>;

/// The error of `serde_json::from_str`, as its `Display` has it.
#[verifier::external_body]
pub(crate) fn find_fault(text: &str) -> (fault: Option<String>)
    ensures
        crate::text::opt_text(fault) == json_fault(text@),
{
    serde_json::from_str::<Value>(text).err().map(|e| e.to_string())
}

/// The member of a JSON object with a key; none when there is no such member, or the text is
/// not an object.
pub uninterp spec fn json_member(text: Seq<char>, key: Seq<char>) -> Option<Seq<char>>;

/// `serde_json::Value::get` by a key, written as text again.
#[verifier::external_body]
pub(crate) fn member(text: &str, key: &str) -> (value: Option<String>)
    ensures
        crate::text::opt_text(value) == json_member(text@, key@),
{
    serde_json::from_str::<Value>(text).ok()?.get(key).map(|v| v.to_string())
}

/// The elements of a JSON array; none when the text is not an array.
pub uninterp spec fn json_items(text: Seq<char>) -> Option<Seq<Seq<char>>>;

/// `serde_json::Value::as_array`, each element written as text again.
#[verifier::external_body]
pub(crate) fn items(text: &str) -> (list: Option<Vec<String>>)
    ensures
        match list {
            Some(list) => json_items(text@) == Some(crate::text::texts(list@)),
            None => json_items(text@) is None,
        },
{
    let value = serde_json::from_str::<Value>(text).ok()?;
    value.as_array().map(|list| list.iter().map(|v| v.to_string()).collect())
}

/// What a JSON string says; none when the text is not a string.
pub uninterp spec fn json_string(text: Seq<char>) -> Option<Seq<char>>;

/// `serde_json::Value::as_str`.
#[verifier::external_body]
pub(crate) fn string(text: &str) -> (s: Option<String>)
    ensures
        crate::text::opt_text(s) == json_string(text@),
{
    serde_json::from_str::<Value>(text).ok()?.as_str().map(String::from)
}

/// What a JSON truth value says; none when the text is not one.
pub uninterp spec fn json_flag(text: Seq<char>) -> Option<bool>;

/// `serde_json::Value::as_bool`.
#[verifier::external_body]
pub(crate) fn flag(text: &str) -> (b: Option<bool>)
    ensures
        b == json_flag(text@),
{
    serde_json::from_str::<Value>(text).ok()?.as_bool()
}

/// The hexadecimal digit, in lower case, for a number below sixteen.
pub open spec fn hex_digit(n: int) -> char {
    if n < 10 {
        ('0' as u8 + n) as u8 as char
    } else {
        ('a' as u8 + (n - 10)) as u8 as char
    }
}

/// A character as it stands in a JSON string.
pub open spec fn quoted_char(c: char) -> Seq<char> {
    let n = c as int;
    if c == '"' || c == '\\' {
        seq!['\\', c]
    } else if n == 0x8 {
        seq!['\\', 'b']
    } else if n == 0x9 {
        seq!['\\', 't']
    } else if n == 0xa {
        seq!['\\', 'n']
    } else if n == 0xc {
        seq!['\\', 'f']
    } else if n == 0xd {
        seq!['\\', 'r']
    } else if n < 0x20 {
        seq!['\\', 'u', '0', '0', hex_digit(n / 16), hex_digit(n % 16)]
    } else {
        seq![c]
    }
}

/// Characters as they stand in a JSON string.
pub open spec fn quoted_chars(text: Seq<char>) -> Seq<char>
    decreases text.len(),
{
    if text.len() == 0 {
        Seq::empty()
    } else {
        quoted_chars(text.drop_last()) + quoted_char(text.last())
    }
}

/// The JSON string that says a text: in double quotes, with quotes, backslashes and control
/// characters escaped.
pub open spec fn json_quoted(text: Seq<char>) -> Seq<char> {
    seq!['"'] + quoted_chars(text) + seq!['"']
}

/// The `Display` of `serde_json::Value::String`: the text in double quotes, with double quotes,
/// backslashes and the control characters below the space escaped, and every other character as
/// it is.
#[verifier::external_body]
pub(crate) fn quote(text: &str) -> (s: String)
    ensures
        s@ == json_quoted(text@),
{
    Value::String(text.to_string()).to_string()
}

// ── Members of a kind ─────────────────────────────────────────────────────

/// What the member with a key says, where it is a string.
pub open spec fn member_string(text: Seq<char>, key: Seq<char>) -> Option<Seq<char>> {
    match json_member(text, key) {
        Some(v) => json_string(v),
        None => None,
    }
}

pub fn string_member(text: &str, key: &str) -> (s: Option<String>)
    ensures
        crate::text::opt_text(s) == member_string(text@, key@),
{
    match member(text, key) {
        Some(v) => string(v.as_str()),
        None => None,
    }
}

/// Whether the member with a key is the truth value true.
pub open spec fn member_is_true(text: Seq<char>, key: Seq<char>) -> bool {
    match json_member(text, key) {
        Some(v) => json_flag(v) == Some(true),
        None => false,
    }
}

pub fn is_true_member(text: &str, key: &str) -> (b: bool)
    ensures
        b == member_is_true(text@, key@),
{
    match member(text, key) {
        Some(v) => match flag(v.as_str()) {
            Some(b) => b,
            None => false,
        },
        None => false,
    }
}

/// The elements of the member with a key, where it is an array; else none.
pub open spec fn member_items(text: Seq<char>, key: Seq<char>) -> Seq<Seq<char>> {
    match json_member(text, key) {
        Some(v) => match json_items(v) {
            Some(list) => list,
            None => Seq::empty(),
        },
        None => Seq::empty(),
    }
}

pub fn items_member(text: &str, key: &str) -> (list: Vec<String>)
    ensures
        crate::text::texts(list@) == member_items(text@, key@),
{
    let found = match member(text, key) {
        Some(v) => items(v.as_str()),
        None => None,
    };
    match found {
        Some(list) => list,
        None => {
            let none: Vec<String> = Vec::new();
            assert(crate::text::texts(none@) =~= Seq::empty());
            none
        },
    }
}

} // verus!
