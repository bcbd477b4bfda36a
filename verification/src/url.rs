//! Addresses of calendars and events.
use vstd::prelude::*;

verus! {

/// The address that a text is, in its normal form; none when it is not an address.
pub uninterp spec fn url_read(text: Seq<char>) -> Option<Seq<char>>;

/// `reqwest::Url::parse`, written as text again.
#[verifier::external_body]
pub(crate) fn parse_url(text: &str) -> (url: Option<String>)
    ensures
        crate::text::opt_text(url) == url_read(text@),
{
    reqwest::Url::parse(text).ok().map(|u| u.to_string())
}

/// The address to which a reference leads from a base; none when either is not one.
pub uninterp spec fn url_joined(base: Seq<char>, href: Seq<char>) -> Option<Seq<char>>;

/// `reqwest::Url::join`, from the address that `base` is, written as text again.
#[verifier::external_body]
pub(crate) fn join_url(base: &str, href: &str) -> (url: Option<String>)
    ensures
        crate::text::opt_text(url) == url_joined(base@, href@),
{
    reqwest::Url::parse(base).ok()?.join(href).ok().map(|u| u.to_string())
}

/// The path of the address that a text is; none when it is not an address.
pub uninterp spec fn url_path(text: Seq<char>) -> Option<Seq<char>>;

/// `reqwest::Url::path`, of the address that `text` is.
#[verifier::external_body]
pub(crate) fn path_of_url(text: &str) -> (path: Option<String>)
    ensures
        crate::text::opt_text(path) == url_path(text@),
{
    reqwest::Url::parse(text).ok().map(|u| u.path().to_string())
}

} // verus!
