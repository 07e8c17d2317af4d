//! The HTTP server ops: building responses and the decisions of serving requests.

use vstd::prelude::*;

use hyper::body::Sender;
use hyper::header::HeaderName;
use hyper::header::HeaderValue;
use hyper::Body;
use hyper::Response;
use hyper::StatusCode;
use std::path::PathBuf;

verus! {

#[verifier::external_type_specification]
#[verifier::external_body]
pub struct ExStatusCode(StatusCode);

#[verifier::external_type_specification]
#[verifier::external_body]
pub struct ExHeaderName(HeaderName);

#[verifier::external_type_specification]
#[verifier::external_body]
pub struct ExHeaderValue(HeaderValue);

#[verifier::external_type_specification]
#[verifier::external_body]
pub struct ExBody(Body);

#[verifier::external_type_specification]
#[verifier::external_body]
pub struct ExSender(Sender);

#[verifier::external_type_specification]
#[verifier::external_body]
pub struct ExPathBuf(PathBuf);

#[verifier::external_type_specification]
#[verifier::external_body]
#[verifier::reject_recursive_types(T)]
pub struct ExResponse<T>(Response<T>);

// ---------------------------------------------------------------------------
// Building responses.
// ---------------------------------------------------------------------------

/// The largest number of headers a response's header map can reserve room for.
pub const MAX_HEADER_RESERVE: usize = 32768;

/// A character the header-name table of the `http` crate accepts.
pub open spec fn header_name_char(c: char) -> bool {
    ||| c == '!'
    ||| c == '"'
    ||| ('#' <= c && c <= '\'')
    ||| c == '*'
    ||| c == '+'
    ||| c == '-'
    ||| c == '.'
    ||| ('0' <= c && c <= '9')
    ||| ('A' <= c && c <= 'Z')
    ||| ('^' <= c && c <= 'z')
    ||| c == '|'
    ||| c == '~'
}

/// A header name the `http` crate accepts: non-empty, at most 65535 bytes, and
/// made only of accepted characters (all of them ASCII).
pub open spec fn header_name_valid(name: Seq<char>) -> bool {
    &&& 0 < name.len() <= 65535
    &&& forall|i: int| 0 <= i < name.len() ==> header_name_char(#[trigger] name[i])
}

/// A header value the `http` crate accepts: no control character but tab.
pub open spec fn header_value_valid(value: Seq<char>) -> bool {
    forall|i: int|
        0 <= i < value.len() ==> (#[trigger] value[i] == '\t' || (' ' <= value[i] && value[i]
            != '\x7f'))
}

/// The status code that `http::StatusCode::from_u16` makes of a number.
pub uninterp spec fn status_code_of(code: u16) -> StatusCode;

/// The header name that `http::header::HeaderName::from_bytes` makes of a name.
pub uninterp spec fn header_name_of(name: Seq<char>) -> HeaderName;

/// The header value that `http::header::HeaderValue::from_bytes` makes of a value.
pub uninterp spec fn header_value_of(value: Seq<char>) -> HeaderValue;

/// `http::StatusCode::from_u16`: accepts exactly the codes 100 to 999.
#[verifier::external_body]
fn parse_status(code: u16) -> (r: Option<StatusCode>)
    ensures
        r.is_some() <==> (100 <= code && code < 1000),
        r matches Some(c) ==> c == status_code_of(code),
{
    StatusCode::from_u16(code).ok()
}

/// `http::header::HeaderName::from_bytes` on the name's UTF-8 bytes: succeeds
/// exactly on the names that `header_name_valid` describes.
#[verifier::external_body]
fn parse_header_name(name: &String) -> (r: Option<HeaderName>)
    ensures
        r.is_some() <==> header_name_valid(name@),
        r matches Some(n) ==> n == header_name_of(name@),
{
    HeaderName::from_bytes(name.as_bytes()).ok()
}

/// `http::header::HeaderValue::from_bytes` on the value's UTF-8 bytes: every
/// byte must be a tab, or at least 32 and not 127; the bytes of a non-ASCII
/// character are all at least 128.
#[verifier::external_body]
fn parse_header_value(value: &String) -> (r: Option<HeaderValue>)
    ensures
        r.is_some() <==> header_value_valid(value@),
        r matches Some(v) ==> v == header_value_of(value@),
{
    HeaderValue::from_bytes(value.as_bytes()).ok()
}

/// The number of distinct header names in a response's header map
/// (`HeaderMap::keys_len`).
pub uninterp spec fn header_names_held(response: Response<Body>) -> nat;

/// The status code a response carries (`Response::status`).
pub uninterp spec fn response_status(response: Response<Body>) -> StatusCode;

/// The values a response's header map holds under a name, in the order they
/// were appended (`HeaderMap::get_all`).
pub uninterp spec fn response_header_values(response: Response<Body>, name: HeaderName) -> Seq<
    HeaderValue,
>;

/// The bytes a body holds when it was made in one piece; `None` for a body
/// that is streamed through a channel.
pub uninterp spec fn body_content(body: Body) -> Option<Seq<u8>>;

/// The content, as `body_content` gives it, of the body a response carries.
pub uninterp spec fn response_body_content(response: Response<Body>) -> Option<Seq<u8>>;

/// Below this many distinct names, a response's header map takes one more
/// header without failing: `http::HeaderMap` refuses an append only when it
/// would grow its index table past 32768 slots, which needs a table already of
/// 32768 slots and either a load of at least a fifth (6554 names) or a full
/// table (24576 names), or when it already holds 32768 names.
pub const APPEND_ALWAYS_FITS: usize = 6554;

/// `http::Response::new`: a response with status 200 (`StatusCode::OK`), no
/// headers, and `body`.
#[verifier::external_body]
fn new_response(body: Body) -> (r: Response<Body>)
    ensures
        header_names_held(r) == 0,
        response_status(r) == status_code_of(200),
        forall|n: HeaderName| #[trigger] response_header_values(r, n) == Seq::<HeaderValue>::empty(),
        response_body_content(r) == body_content(body),
{
    Response::new(body)
}

/// `http::Response::status_mut`: sets the response's status code; the headers
/// and the body stay as they were.
#[verifier::external_body]
fn set_status(response: &mut Response<Body>, status: StatusCode)
    ensures
        response_status(*final(response)) == status,
        header_names_held(*final(response)) == header_names_held(*old(response)),
        forall|n: HeaderName| #[trigger] response_header_values(*final(response), n)
            == response_header_values(*old(response), n),
        response_body_content(*final(response)) == response_body_content(*old(response)),
{
    *response.status_mut() = status;
}

/// `http::HeaderMap::reserve` on the response's header map. It panics once the
/// room it makes for the names already held and `additional` more rounds up
/// past 32768 entries, so the two together are kept at or below that. It only
/// makes room: the response stays as it was.
#[verifier::external_body]
fn reserve_headers(response: &mut Response<Body>, additional: usize)
    requires
        header_names_held(*old(response)) + additional <= MAX_HEADER_RESERVE,
    ensures
        header_names_held(*final(response)) == header_names_held(*old(response)),
        response_status(*final(response)) == response_status(*old(response)),
        forall|n: HeaderName| #[trigger] response_header_values(*final(response), n)
            == response_header_values(*old(response), n),
        response_body_content(*final(response)) == response_body_content(*old(response)),
{
    response.headers_mut().reserve(additional);
}

/// `http::HeaderMap::try_append` on the response's header map. On success the
/// value is added after the others held under `name`, and the number of names
/// held grows by one exactly when `name` held no value before; on failure the
/// map is left as it was. It cannot fail while the map holds fewer than
/// `APPEND_ALWAYS_FITS` names; with more names, whether it fails depends on how
/// the names hash, and no clause here states it. The status and the body stay
/// as they were.
#[verifier::external_body]
fn append_header(response: &mut Response<Body>, name: HeaderName, value: HeaderValue) -> (ok:
    bool)
    ensures
        header_names_held(*final(response)) <= header_names_held(*old(response)) + 1,
        ok ==> header_names_held(*final(response)) == header_names_held(*old(response)) + (if response_header_values(*old(response), name).len() == 0 {
            1int
        } else {
            0int
        }),
        !ok ==> header_names_held(*final(response)) == header_names_held(*old(response)),
        header_names_held(*old(response)) < APPEND_ALWAYS_FITS ==> ok,
        ok ==> response_header_values(*final(response), name) == response_header_values(
            *old(response),
            name,
        ).push(value),
        forall|n: HeaderName|
            (!ok || n != name) ==> #[trigger] response_header_values(*final(response), n)
                == response_header_values(*old(response), n),
        response_status(*final(response)) == response_status(*old(response)),
        response_body_content(*final(response)) == response_body_content(*old(response)),
{
    response.headers_mut().try_append(name, value).is_ok()
}

/// `hyper::Body::from(Vec<u8>)`: a body made of the given bytes in one piece.
#[verifier::external_body]
fn body_from_bytes(data: Vec<u8>) -> (b: Body)
    ensures
        body_content(b) == Some(data@),
{
    Body::from(data)
}

/// `hyper::Body::channel`: a streamed body and the sender that feeds it. Which
/// sender feeds which body is not stated.
#[verifier::external_body]
fn body_channel() -> (r: (Sender, Body))
    ensures
        body_content(r.1) is None,
{
    Body::channel()
}

/// The values that `headers`, taken in order, put under `name`.
pub open spec fn values_under(headers: Seq<(String, String)>, name: HeaderName) -> Seq<HeaderValue>
    decreases headers.len(),
{
    if headers.len() == 0 {
        Seq::empty()
    } else {
        let rest = values_under(headers.drop_last(), name);
        if header_name_of(headers.last().0@) == name {
            rest.push(header_value_of(headers.last().1@))
        } else {
            rest
        }
    }
}

/// Why a response could not be built.
#[derive(Debug, PartialEq, Eq, Structural)]
pub enum RespondError {
    /// The status or a header was refused while building the response.
    Http,
}

/// The number of distinct names among `headers`, as the `http` crate reads them.
pub open spec fn distinct_names(headers: Seq<(String, String)>) -> nat
    decreases headers.len(),
{
    if headers.len() == 0 {
        0
    } else {
        let rest = distinct_names(headers.drop_last());
        if values_under(headers.drop_last(), header_name_of(headers.last().0@)).len() == 0 {
            rest + 1
        } else {
            rest
        }
    }
}

/// A prefix of a header list has no more distinct names than the whole list.
proof fn lemma_distinct_names_prefix(headers: Seq<(String, String)>, i: int)
    requires
        0 <= i <= headers.len(),
    ensures
        distinct_names(headers.subrange(0, i)) <= distinct_names(headers),
    decreases headers.len(),
{
    if i < headers.len() {
        assert(headers.subrange(0, i) =~= headers.drop_last().subrange(0, i));
        lemma_distinct_names_prefix(headers.drop_last(), i);
    } else {
        assert(headers.subrange(0, i) =~= headers);
    }
}


/// Every header's name and value is one the `http` crate accepts.
pub open spec fn headers_valid(headers: Seq<(String, String)>) -> bool {
    forall|i: int|
        0 <= i < headers.len() ==> header_name_valid((#[trigger] headers[i]).0@)
            && header_value_valid(headers[i].1@)
}

/// A response ready to send, with the sender of its streaming body when it has one.
pub struct BuiltResponse {
    pub response: Response<Body>,
    pub body_sender: Option<Sender>,
}

/// Builds the response to a request: the status, then each header in order,
/// with the body. With `data` the body is those bytes; without it the body is
/// streamed, and the result carries the sender for it.
pub fn build_response(status: u16, headers: Vec<(String, String)>, data: Option<Vec<u8>>) -> (r:
    Result<BuiltResponse, RespondError>)
    requires
        100 <= status < 1000,
        headers@.len() <= MAX_HEADER_RESERVE,
    ensures
        r.is_ok() ==> headers_valid(headers@),
        !headers_valid(headers@) ==> r.is_err(),
        headers@.len() <= APPEND_ALWAYS_FITS ==> (r.is_ok() <==> headers_valid(headers@)),
        distinct_names(headers@) < APPEND_ALWAYS_FITS ==> (r.is_ok() <==> headers_valid(headers@)),
        r matches Ok(b) ==> (b.body_sender.is_some() <==> data.is_none()),
        r matches Ok(b) ==> response_status(b.response) == status_code_of(status),
        r matches Ok(b) ==> forall|n: HeaderName|
            #[trigger] response_header_values(b.response, n) == values_under(headers@, n),
        r matches Ok(b) ==> response_body_content(b.response) == (match data {
            Some(d) => Some(d@),
            None => None,
        }),
{
    let code = parse_status(status).unwrap();
    let (body, body_sender) = match data {
        Some(d) => (body_from_bytes(d), None),
        None => {
            let (sender, body) = body_channel();
            (body, Some(sender))
        },
    };
    let mut response = new_response(body);
    set_status(&mut response, code);
    reserve_headers(&mut response, headers.len());
    let mut i: usize = 0;
    while i < headers.len()
        invariant
            i <= headers@.len(),
            header_names_held(response) <= i,
            header_names_held(response) == distinct_names(headers@.subrange(0, i as int)),
            headers@.len() <= MAX_HEADER_RESERVE,
            response_status(response) == status_code_of(status),
            response_body_content(response) == (match data {
                Some(d) => Some(d@),
                None => None,
            }),
            forall|n: HeaderName|
                #[trigger] response_header_values(response, n) == values_under(
                    headers@.subrange(0, i as int),
                    n,
                ),
            forall|j: int|
                0 <= j < i ==> header_name_valid((#[trigger] headers@[j]).0@)
                    && header_value_valid(headers@[j].1@),
        decreases headers@.len() - i,
    {
        let name = match parse_header_name(&headers[i].0) {
            Some(n) => n,
            None => {
                return Err(RespondError::Http);
            },
        };
        let value = match parse_header_value(&headers[i].1) {
            Some(v) => v,
            None => {
                return Err(RespondError::Http);
            },
        };
        let ghost before = response;
        proof {
            lemma_distinct_names_prefix(headers@, i as int);
        }
        if !append_header(&mut response, name, value) {
            return Err(RespondError::Http);
        }
        proof {
            let hs = headers@.subrange(0, i + 1);
            assert(hs.drop_last() =~= headers@.subrange(0, i as int));
            assert(hs.last() == headers@[i as int]);
            assert(header_names_held(response) == distinct_names(hs));
            assert forall|n: HeaderName|
                #[trigger] response_header_values(response, n) == values_under(hs, n) by {
                if n != header_name_of(headers@[i as int].0@) {
                    assert(response_header_values(response, n) == response_header_values(before, n));
                }
            }
        }
        i = i + 1;
    }
    assert(headers@.subrange(0, i as int) =~= headers@);
    Ok(BuiltResponse { response, body_sender })
}

// ---------------------------------------------------------------------------
// The declaration file.
// ---------------------------------------------------------------------------

/// What `std::path::Path::join` gives for a base path and a file name.
pub uninterp spec fn joined_path(base: Seq<char>, name: Seq<char>) -> PathBuf;

/// `std::path::Path::join`: the path `base` followed by `name`.
#[verifier::external_body]
fn join_path(base: &str, name: &str) -> (r: PathBuf)
    ensures
        r == joined_path(base@, name@),
{
    std::path::Path::new(base).join(name)
}

/// The path of the TypeScript declarations of the HTTP ops, which sit in the
/// directory of the crate's manifest.
pub fn get_declaration(manifest_dir: &str) -> (r: PathBuf)
    ensures
        r == joined_path(manifest_dir@, "lib.deno_http.d.ts"@),
{
    join_path(manifest_dir, "lib.deno_http.d.ts")
}

// ---------------------------------------------------------------------------
// Serving requests.
// ---------------------------------------------------------------------------

/// The arguments of a respond op: the response sender's resource id, the status
/// code, and the headers.
pub struct RespondArgs(pub u32, pub u16, pub Vec<(String, String)>);

/// What a next-request op hands back: whether the connection closed, the
/// resource id of the request body when there is one, the resource id of the
/// response sender, the method, the headers, and the URL.
pub struct NextRequestResponse(
    pub bool,
    pub Option<u32>,
    pub u32,
    pub String,
    pub Vec<(String, String)>,
    pub String,
);

/// How one poll of an HTTP connection ended.
#[derive(Debug, Clone, Copy, PartialEq, Eq, Structural)]
pub enum ConnPoll {
    /// The connection has more to do.
    Pending,
    /// The connection finished.
    Done,
    /// The connection failed.
    Failed,
}

/// What a next-request op does after polling its connection.
#[derive(Debug, PartialEq, Eq, Structural)]
pub enum NextRequestStep {
    /// Hand back the connection's error.
    Fail,
    /// Hand back the request that arrived; `connection_closed` says whether the
    /// connection finished with it.
    Serve { connection_closed: bool },
    /// Wait to be polled again.
    Wait,
}

/// Decides what a next-request op does once its connection was polled and the
/// service was checked for a request: an error ends the op, a request that
/// arrived is handed back, and otherwise the op waits.
pub fn next_request_step(poll: ConnPoll, has_request: bool) -> (s: NextRequestStep)
    ensures
        poll is Failed ==> s is Fail,
        !(poll is Failed) && has_request ==> s == (NextRequestStep::Serve {
            connection_closed: poll is Done,
        }),
        !(poll is Failed) && !has_request ==> s is Wait,
{
    match poll {
        ConnPoll::Failed => NextRequestStep::Fail,
        ConnPoll::Done => {
            if has_request {
                NextRequestStep::Serve { connection_closed: true }
            } else {
                NextRequestStep::Wait
            }
        },
        ConnPoll::Pending => {
            if has_request {
                NextRequestStep::Serve { connection_closed: false }
            } else {
                NextRequestStep::Wait
            }
        },
    }
}

/// Whether a request has a body to read, from the exact size its body reports
/// when it knows one: a known size has a body when it is not zero, and an
/// unknown size is taken to have one.
pub fn request_has_body(exact_size: Option<u64>) -> (b: bool)
    ensures
        b == (match exact_size {
            Some(n) => n > 0,
            None => true,
        }),
{
    match exact_size {
        Some(n) => n > 0,
        None => true,
    }
}

/// The answer of a next-request op for a request with the given method and
/// URL. The headers are handed back empty.
pub fn next_request_response(
    connection_closed: bool,
    request_body_rid: Option<u32>,
    response_sender_rid: u32,
    method: String,
    url: String,
) -> (r: NextRequestResponse)
    ensures
        r.0 == connection_closed,
        r.1 == request_body_rid,
        r.2 == response_sender_rid,
        r.3@ == method@,
        r.4@.len() == 0,
        r.5@ == url@,
{
    NextRequestResponse(connection_closed, request_body_rid, response_sender_rid, method, Vec::new(), url)
}

} // verus!
