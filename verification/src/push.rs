//! The requests by which a pass writes to a server, and what their replies mean.
use vstd::prelude::*;

use crate::google::{google_body, google_events_url, GoogleError};
use crate::http::{add_pair, delete_ics, is_success, put_ics, Request};
use crate::json::{find_fault, string_member};
use crate::record::EventRecord;
use crate::text::{has_text, trim};
use crate::url::{join_url, parse_url};
use crate::vevent::{new_vevent, patch_vevent};
use crate::when::RecordError;

verus! {

/// Why a request cannot be made.
#[derive(Clone, Copy, Debug, PartialEq, Eq, Structural)]
pub enum PushError {
    /// The record cannot be sent.
    Record(RecordError),
    /// There is no address for it.
    BadUrl,
}

// ── CalDAV ────────────────────────────────────────────────────────────────

/// The request to create an event on a calendar under an identity, and the address that the
/// event gets. It is refused where something is at that address already.
pub fn icloud_create(uid: &str, calendar: &str, r: &EventRecord) -> (made: Result<
    (String, Request),
    PushError,
>)
    ensures
        match crate::url::url_joined(calendar@, uid@ + ".ics"@) {
            None => made == Err::<(String, Request), PushError>(PushError::BadUrl),
            Some(url) => match made {
                Ok((address, request)) => {
                    &&& address@ == url
                    &&& exists|body: Seq<char>| #[trigger]
                        is_new_event(uid@, r@, body) && request@ == crate::http::put_view(
                            url,
                            body,
                            None,
                        )
                },
                Err(PushError::Record(e)) => crate::when::fails_with(r@, e),
                Err(PushError::BadUrl) => false,
            },
        },
{
    let mut name = uid.to_owned();
    name.append(".ics");
    let url = match join_url(calendar, name.as_str()) {
        None => return Err(PushError::BadUrl),
        Some(url) => url,
    };
    match new_vevent(uid, r) {
        Err(e) => Err(PushError::Record(e)),
        Ok(body) => {
            let request = put_ics(url.as_str(), body.as_str(), None);
            assert(is_new_event(uid@, r@, body@));
            Ok((url, request))
        },
    }
}

/// Whether a text is a calendar with one event under an identity that says what a record says.
pub open spec fn is_new_event(
    uid: Seq<char>,
    r: crate::record::RecordView,
    text: Seq<char>,
) -> bool {
    exists|now: crate::date::Moment, span: (Seq<char>, Seq<char>)|
        crate::date::valid_moment(now) && crate::vevent::are_span_lines(r, span) && text
            == crate::vevent::lines_text(
            #[trigger] crate::vevent::new_event_lines(uid, now, span, r.title),
        )
}

/// Whether a text is a resource with the first event changed to what a record says.
pub open spec fn is_changed_event(
    lines: Seq<Seq<char>>,
    r: crate::record::RecordView,
    text: Seq<char>,
) -> bool {
    exists|span: (Seq<char>, Seq<char>)|
        crate::vevent::are_span_lines(r, span) && #[trigger] crate::vevent::patched_lines(
            lines,
            r.title,
            span,
        ) is Some && text == crate::vevent::lines_text(
            crate::vevent::patched_lines(lines, r.title, span)->0,
        )
}

/// The request to change an event to what a record says, if it still is the one with the tag.
pub fn icloud_update(url: &str, etag: &str, lines: &Vec<String>, r: &EventRecord) -> (made: Result<
    Request,
    RecordError,
>)
    ensures
        match made {
            Ok(request) => exists|body: Seq<char>| #[trigger]
                is_changed_event(crate::text::texts(lines@), r@, body) && request@
                    == crate::http::put_view(url@, body, Some(etag@)),
            Err(e) => crate::when::fails_with(r@, e) || (e == RecordError::NoEvent
                && !crate::vevent::has_event(crate::text::texts(lines@))
                && crate::when::may_be_sent(r@)),
        },
{
    match patch_vevent(lines, r) {
        Err(e) => Err(e),
        Ok(body) => {
            assert(is_changed_event(crate::text::texts(lines@), r@, body@));
            Ok(put_ics(url, body.as_str(), Some(etag)))
        },
    }
}

// ── Google ────────────────────────────────────────────────────────────────

/// A request that writes an event, over the one with the tag where a tag is given.
pub open spec fn write_view(
    method: Seq<char>,
    url: Seq<char>,
    body: Seq<char>,
    etag: Seq<char>,
) -> crate::http::RequestView {
    let content = ("Content-Type"@, "application/json"@);
    crate::http::RequestView {
        method,
        url,
        headers: if etag.len() > 0 {
            seq![content, ("If-Match"@, etag)]
        } else {
            seq![content]
        },
        query: Seq::empty(),
        body: Some(body),
    }
}

fn write_request(method: &str, url: &str, body: String, etag: &str) -> (r: Request)
    ensures
        r@ == write_view(method@, url@, body@, etag@),
{
    let mut headers: Vec<(String, String)> = Vec::new();
    add_pair(&mut headers, "Content-Type", "application/json");
    if !etag.is_empty() {
        add_pair(&mut headers, "If-Match", etag);
    }
    let r = Request {
        method: method.to_owned(),
        url: url.to_owned(),
        headers,
        query: Vec::new(),
        body: Some(body),
    };
    assert(r@ =~= write_view(method@, url@, body@, etag@));
    r
}

/// The request to create an event on a calendar.
pub fn google_create(cal_id: &str, r: &EventRecord) -> (made: Result<Request, RecordError>)
    ensures
        match made {
            Ok(request) => exists|body: Seq<char>| #[trigger]
                crate::google::is_google_body(r@, body) && request@ == write_view(
                    "POST"@,
                    crate::google::events_url(cal_id@),
                    body,
                    Seq::empty(),
                ),
            Err(e) => crate::when::fails_with(r@, e),
        },
{
    match google_body(r) {
        Err(e) => Err(e),
        Ok(body) => {
            let ghost text = body@;
            assert(crate::google::is_google_body(r@, text));
            let url = google_events_url(cal_id);
            proof {
                reveal_strlit("");
                assert(""@ =~= Seq::<char>::empty());
            }
            Ok(write_request("POST", url.as_str(), body, ""))
        },
    }
}

/// The identity, the address and the tag of an event that the service says it has created: the
/// iCalendar identity, or the id of the service where it gives none.
pub open spec fn created_event(
    id: Option<Seq<char>>,
    address: Option<Seq<char>>,
    uid: Option<Seq<char>>,
    etag: Option<Seq<char>>,
) -> Result<(Seq<char>, Seq<char>, Seq<char>), GoogleError> {
    match (id, address) {
        (None, _) => Err(GoogleError::NoId),
        (_, None) => Err(GoogleError::BadUrl),
        (Some(id), Some(url)) => Ok(
            (
                match uid {
                    Some(uid) => uid,
                    None => id,
                },
                url,
                crate::text::or_empty(etag),
            ),
        ),
    }
}

/// The view of the identity, the address and the tag of an event.
pub open spec fn result_created(r: Result<(String, String, String), GoogleError>) -> Result<
    (Seq<char>, Seq<char>, Seq<char>),
    GoogleError,
> {
    match r {
        Ok((uid, url, etag)) => Ok((uid@, url@, etag@)),
        Err(e) => Err(e),
    }
}

/// The identity, the address and the tag of an event that was created.
pub fn identify_created(
    id: Option<String>,
    address: Option<String>,
    uid: Option<String>,
    etag: Option<String>,
) -> (r: Result<(String, String, String), GoogleError>)
    ensures
        result_created(r) == created_event(
            crate::text::opt_text(id),
            crate::text::opt_text(address),
            crate::text::opt_text(uid),
            crate::text::opt_text(etag),
        ),
{
    let id = match id {
        None => return Err(GoogleError::NoId),
        Some(id) => id,
    };
    match address {
        None => Err(GoogleError::BadUrl),
        Some(url) => {
            let uid = match uid {
                Some(uid) => uid,
                None => id,
            };
            let etag = match etag {
                Some(etag) => etag,
                None => String::new(),
            };
            Ok((uid, url, etag))
        },
    }
}

/// Reads the identity, the address and the tag of an event that was created on a calendar.
pub fn google_created(cal_id: &str, reply: &str) -> (r: Result<
    (String, String, String),
    GoogleError,
>)
    ensures
        ({
            let id = crate::json::member_string(reply@, "id"@);
            result_created(r) == created_event(
                id,
                match id {
                    Some(id) => crate::google::item_address(
                        crate::google::events_url(cal_id@),
                        id,
                    ),
                    None => None,
                },
                crate::json::member_string(reply@, "iCalUID"@),
                crate::json::member_string(reply@, "etag"@),
            )
        }),
{
    let id = string_member(reply, "id");
    let address = match &id {
        None => None,
        Some(id) => {
            let mut address = google_events_url(cal_id);
            address.append("/");
            address.append(id.as_str());
            parse_url(address.as_str())
        },
    };
    identify_created(id, address, string_member(reply, "iCalUID"), string_member(reply, "etag"))
}

/// The request to change an event to what a record says, if it still is the one with the tag.
/// Only the title, the start and the end are sent: the rest of the event stays as it is.
pub fn google_update(url: &str, etag: &str, r: &EventRecord) -> (made: Result<
    Request,
    RecordError,
>)
    ensures
        match made {
            Ok(request) => exists|body: Seq<char>| #[trigger]
                crate::google::is_google_body(r@, body) && request@ == write_view("PATCH"@, url@, body, etag@),
            Err(e) => crate::when::fails_with(r@, e),
        },
{
    match google_body(r) {
        Err(e) => Err(e),
        Ok(body) => {
            let ghost text = body@;
            assert(crate::google::is_google_body(r@, text));
            Ok(write_request("PATCH", url, body, etag))
        },
    }
}

/// Reads the tag of an event that was written.
pub fn google_updated(reply: &str) -> (etag: String)
    ensures
        etag@ == crate::text::or_empty(crate::json::member_string(reply@, "etag"@)),
{
    match string_member(reply, "etag") {
        Some(etag) => etag,
        None => String::new(),
    }
}

/// The request to delete an event, whatever its tag.
pub fn google_delete(url: &str) -> (r: Request)
    ensures
        r@ == crate::http::delete_view(url@, Seq::empty()),
{
    proof {
        reveal_strlit("");
        assert(""@ =~= Seq::<char>::empty());
    }
    delete_ics(url, "")
}

/// What an error of the service is called.
pub open spec fn error_text(
    method: Seq<char>,
    url: Seq<char>,
    status: Seq<char>,
    text: Seq<char>,
) -> Seq<char> {
    method + " "@ + url + ": HTTP "@ + status + " "@ + text
}

/// The JSON text that a reply of the service stands for, or what the error is called: nothing
/// when the reply is empty.
pub open spec fn reply_of(
    method: Seq<char>,
    url: Seq<char>,
    status: u16,
    status_text: Seq<char>,
    text: Seq<char>,
    fault: Option<Seq<char>>,
) -> Result<Seq<char>, Seq<char>> {
    if status == 204 {
        Ok("null"@)
    } else if !crate::http::succeeded(status) {
        Err(error_text(method, url, status_text, text))
    } else if crate::text::trimmed(text).len() == 0 {
        Ok("null"@)
    } else {
        match fault {
            None => Ok(text),
            Some(fault) => Err(method + " "@ + url + ": bad JSON: "@ + fault),
        }
    }
}

/// The view of a JSON text or an error.
pub open spec fn result_reply(r: Result<String, String>) -> Result<Seq<char>, Seq<char>> {
    match r {
        Ok(s) => Ok(s@),
        Err(s) => Err(s@),
    }
}

/// Reads the status and the text of a reply of the service, given what is wrong with the text
/// as JSON.
pub fn read_reply(
    method: &str,
    url: &str,
    status: u16,
    status_text: &str,
    text: &str,
    fault: Option<String>,
) -> (r: Result<String, String>)
    ensures
        result_reply(r) == reply_of(
            method@,
            url@,
            status,
            status_text@,
            text@,
            crate::text::opt_text(fault),
        ),
{
    if status == 204 {
        return Ok("null".to_owned());
    }
    let mut error = method.to_owned();
    error.append(" ");
    error.append(url);
    if !is_success(status) {
        error.append(": HTTP ");
        error.append(status_text);
        error.append(" ");
        error.append(text);
        return Err(error);
    }
    if trim(text).is_empty() {
        return Ok("null".to_owned());
    }
    match fault {
        None => Ok(text.to_owned()),
        Some(fault) => {
            error.append(": bad JSON: ");
            error.append(fault.as_str());
            Err(error)
        },
    }
}

/// Reads the status and the text of a reply of the service.
pub fn google_reply(
    method: &str,
    url: &str,
    status: u16,
    status_text: &str,
    text: &str,
) -> (r: Result<String, String>)
    ensures
        result_reply(r) == reply_of(
            method@,
            url@,
            status,
            status_text@,
            text@,
            crate::json::json_fault(text@),
        ),
{
    read_reply(method, url, status, status_text, text, find_fault(text))
}

/// Whether an error says that the event was not there.
pub open spec fn says_gone(error: Seq<char>) -> bool {
    crate::text::contains(error, "HTTP 404"@) || crate::text::contains(error, "HTTP 410"@)
}

/// Whether an event is deleted although the request to delete it gave an error: it was gone
/// already.
pub fn is_already_gone(error: &str) -> (r: bool)
    ensures
        r == says_gone(error@),
{
    has_text(error, "HTTP 404") || has_text(error, "HTTP 410")
}

/// An event that the service no longer has counts as deleted, whatever else the reply says.
pub proof fn law_missing_event_counts_as_deleted(
    method: Seq<char>,
    url: Seq<char>,
    status: u16,
    status_text: Seq<char>,
    text: Seq<char>,
    fault: Option<Seq<char>>,
)
    requires
        status == 404 || status == 410,
        status_text.len() >= 3,
        status_text.take(3) == crate::text::decimal(status as nat),
    ensures
        reply_of(method, url, status, status_text, text, fault) matches Err(error) && says_gone(
            error,
        ),
{
    reveal_strlit(": HTTP ");
    reveal_strlit("HTTP 404");
    reveal_strlit("HTTP 410");
    reveal_strlit(" ");
    reveal_with_fuel(crate::text::decimal, 4);
    let error = error_text(method, url, status_text, text);
    let at = (method.len() + 1 + url.len() + 2) as int;
    let found = error.subrange(at, at + 8);
    let code = status_text.take(3);
    assert(found =~= seq!['H', 'T', 'T', 'P', ' ', code[0], code[1], code[2]]);
    assert(crate::text::digit(4) == '4' && crate::text::digit(1) == '1' && crate::text::digit(0)
        == '0');
    assert(crate::text::decimal(40) =~= seq!['4', '0']);
    assert(crate::text::decimal(41) =~= seq!['4', '1']);
    assert(code =~= if status == 404 {
        seq!['4', '0', '4']
    } else {
        seq!['4', '1', '0']
    });
    if status == 404 {
        assert(found =~= "HTTP 404"@);
    } else {
        assert(found =~= "HTTP 410"@);
    }
}

// ── The token ─────────────────────────────────────────────────────────────

/// Why there is no token.
#[derive(Clone, Copy, Debug, PartialEq, Eq, Structural)]
pub enum TokenError {
    /// The reply is not JSON.
    BadJson,
    /// The grant was refused.
    Refused,
    /// The reply holds no token.
    NoToken,
}

/// The token that a reply gives, from the status, whether it is JSON, and what it says.
pub open spec fn token_of(
    status: u16,
    fault: Option<Seq<char>>,
    token: Option<Seq<char>>,
) -> Result<Seq<char>, TokenError> {
    if fault is Some {
        Err(TokenError::BadJson)
    } else if !crate::http::succeeded(status) {
        Err(TokenError::Refused)
    } else {
        match token {
            Some(t) => Ok(t),
            None => Err(TokenError::NoToken),
        }
    }
}

/// The view of a token or an error.
pub open spec fn result_token(r: Result<String, TokenError>) -> Result<Seq<char>, TokenError> {
    match r {
        Ok(s) => Ok(s@),
        Err(e) => Err(e),
    }
}

/// The token that a reply gives.
pub fn read_token(status: u16, fault: Option<String>, token: Option<String>) -> (r: Result<
    String,
    TokenError,
>)
    ensures
        result_token(r) == token_of(
            status,
            crate::text::opt_text(fault),
            crate::text::opt_text(token),
        ),
{
    if fault.is_some() {
        return Err(TokenError::BadJson);
    }
    if !is_success(status) {
        return Err(TokenError::Refused);
    }
    match token {
        Some(t) => Ok(t),
        None => Err(TokenError::NoToken),
    }
}

/// Reads the access token out of the reply to the refresh grant.
pub fn google_access_token(status: u16, reply: &str) -> (r: Result<String, TokenError>)
    ensures
        result_token(r) == token_of(
            status,
            crate::json::json_fault(reply@),
            crate::json::member_string(reply@, "access_token"@),
        ),
{
    read_token(status, find_fault(reply), string_member(reply, "access_token"))
}

} // verus!
