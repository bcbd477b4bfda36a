//! Requests to servers and what their replies mean.
use vstd::prelude::*;

verus! {

/// A request to a server, but for the credentials.
#[derive(Debug)]
pub struct Request {
    pub method: String,
    pub url: String,
    pub headers: Vec<(String, String)>,
    pub query: Vec<(String, String)>,
    pub body: Option<String>,
}

#[verifier::ext_equal]
pub struct RequestView {
    pub method: Seq<char>,
    pub url: Seq<char>,
    pub headers: Seq<(Seq<char>, Seq<char>)>,
    pub query: Seq<(Seq<char>, Seq<char>)>,
    pub body: Option<Seq<char>>,
}

impl View for Request {
    type V = RequestView;

    open spec fn view(&self) -> RequestView {
        RequestView {
            method: self.method@,
            url: self.url@,
            headers: crate::xml::pair_views(self.headers@),
            query: crate::xml::pair_views(self.query@),
            body: crate::text::opt_text(self.body),
        }
    }
}

/// Adds a pair of texts.
pub fn add_pair(pairs: &mut Vec<(String, String)>, key: &str, value: &str)
    ensures
        crate::xml::pair_views(final(pairs)@) == crate::xml::pair_views(old(pairs)@).push(
            (key@, value@),
        ),
{
    pairs.push((key.to_owned(), value.to_owned()));
    assert(crate::xml::pair_views(pairs@) =~= crate::xml::pair_views(old(pairs)@).push(
        (key@, value@),
    ));
}

/// Whether a status says that the request succeeded.
pub open spec fn succeeded(status: u16) -> bool {
    200 <= status < 300
}

pub fn is_success(status: u16) -> (r: bool)
    ensures
        r == succeeded(status),
{
    200 <= status && status < 300
}

// ── CalDAV ────────────────────────────────────────────────────────────────

/// A question to a CalDAV server about a resource and what is `depth` below it.
pub open spec fn dav_view(
    method: Seq<char>,
    url: Seq<char>,
    depth: Seq<char>,
    body: Seq<char>,
) -> RequestView {
    RequestView {
        method,
        url,
        headers: seq![
            ("Depth"@, depth),
            ("Content-Type"@, "application/xml; charset=utf-8"@),
        ],
        query: Seq::empty(),
        body: Some(body),
    }
}

pub fn dav_request(method: &str, url: &str, depth: &str, body: &str) -> (r: Request)
    ensures
        r@ == dav_view(method@, url@, depth@, body@),
{
    let mut headers: Vec<(String, String)> = Vec::new();
    add_pair(&mut headers, "Depth", depth);
    add_pair(&mut headers, "Content-Type", "application/xml; charset=utf-8");
    let r = Request {
        method: method.to_owned(),
        url: url.to_owned(),
        headers,
        query: Vec::new(),
        body: Some(body.to_owned()),
    };
    assert(r@ =~= dav_view(method@, url@, depth@, body@));
    r
}

/// A request to store an iCalendar text: over the resource with a tag, over whatever is there
/// when the tag is empty, or only where there is none yet.
pub open spec fn put_view(
    url: Seq<char>,
    body: Seq<char>,
    etag: Option<Seq<char>>,
) -> RequestView {
    let content = ("Content-Type"@, "text/calendar; charset=utf-8"@);
    RequestView {
        method: "PUT"@,
        url,
        headers: match etag {
            None => seq![content, ("If-None-Match"@, "*"@)],
            Some(e) => if e.len() > 0 {
                seq![content, ("If-Match"@, e)]
            } else {
                seq![content]
            },
        },
        query: Seq::empty(),
        body: Some(body),
    }
}

pub fn put_ics(url: &str, body: &str, etag: Option<&str>) -> (r: Request)
    ensures
        r@ == put_view(
            url@,
            body@,
            match etag {
                Some(e) => Some(e@),
                None => None,
            },
        ),
{
    let mut headers: Vec<(String, String)> = Vec::new();
    add_pair(&mut headers, "Content-Type", "text/calendar; charset=utf-8");
    match etag {
        None => add_pair(&mut headers, "If-None-Match", "*"),
        Some(e) => {
            if !e.is_empty() {
                add_pair(&mut headers, "If-Match", e);
            }
        },
    }
    let r = Request {
        method: "PUT".to_owned(),
        url: url.to_owned(),
        headers,
        query: Vec::new(),
        body: Some(body.to_owned()),
    };
    proof {
        let view = match etag {
            Some(e) => Some(e@),
            None => None,
        };
        assert(r@ =~= put_view(url@, body@, view));
    }
    r
}

/// A request to delete a resource, if it is the one with the tag.
pub open spec fn delete_view(url: Seq<char>, etag: Seq<char>) -> RequestView {
    RequestView {
        method: "DELETE"@,
        url,
        headers: if etag.len() > 0 {
            seq![("If-Match"@, etag)]
        } else {
            Seq::empty()
        },
        query: Seq::empty(),
        body: None,
    }
}

pub fn delete_ics(url: &str, etag: &str) -> (r: Request)
    ensures
        r@ == delete_view(url@, etag@),
{
    let mut headers: Vec<(String, String)> = Vec::new();
    if !etag.is_empty() {
        add_pair(&mut headers, "If-Match", etag);
    }
    let r = Request {
        method: "DELETE".to_owned(),
        url: url.to_owned(),
        headers,
        query: Vec::new(),
        body: None,
    };
    assert(r@ =~= delete_view(url@, etag@));
    r
}

/// Whether the resource is gone after a request to delete it: the server did so, or did not
/// have it.
pub fn is_deleted(status: u16) -> (r: bool)
    ensures
        r == (succeeded(status) || status == 404),
{
    is_success(status) || status == 404
}

/// What came of a request to store a resource.
#[derive(Debug)]
pub enum Stored {
    /// The server refused.
    Refused,
    /// It is stored under this tag.
    Tagged(String),
    /// It is stored, and its tag has to be asked for.
    Untagged,
}

/// What came of a request to store a resource, from the status and the tag of the reply.
pub fn read_stored(status: u16, etag: Option<&str>) -> (r: Stored)
    ensures
        match r {
            Stored::Refused => !succeeded(status),
            Stored::Tagged(tag) => succeeded(status) && tag@.len() > 0 && etag is Some && tag@
                == etag->0@,
            Stored::Untagged => succeeded(status) && (etag is None || etag->0@.len() == 0),
        },
{
    if !is_success(status) {
        return Stored::Refused;
    }
    match etag {
        Some(tag) => {
            if tag.is_empty() {
                Stored::Untagged
            } else {
                Stored::Tagged(tag.to_owned())
            }
        },
        None => Stored::Untagged,
    }
}

} // verus!
