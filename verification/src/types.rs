//! The broker's wire-level data model: request and response records, the
//! request kinds, and the status codes a response can carry.

use vstd::prelude::*;

verus! {

/// The kind of a request or response. `Message` is delivery-only: the broker
/// emits it for fan-out, and answers `BadRequest` to a client that sends it.
#[derive(Clone, Copy, PartialEq, Eq, Structural, Debug)]
pub enum Type {
    Publish,
    Subscribe,
    Unsubscribe,
    Message,
    Generic,
}

/// Outcome of handling one request.
#[derive(Clone, Copy, PartialEq, Eq, Structural, Debug)]
pub enum Status {
    /// The request was successful.
    Okay,
    /// The request could not be parsed. Client error response.
    Unparseable,
    /// The request was not understood. Client error response.
    BadRequest,
}

/// A decoded client request.
#[derive(Debug)]
pub struct Request {
    pub kind: Type,
    pub path: String,
    pub headers: Vec<(String, String)>,
    pub body: Option<Vec<u8>>,
}

/// A response, either to the requester itself or fanned out to a subscriber.
#[derive(Debug)]
pub struct Response {
    pub kind: Type,
    pub path: Option<String>,
    pub status: Status,
    pub headers: Vec<(String, String)>,
    pub body: Option<Vec<u8>>,
}

/// An error message, as a record of its own.
#[derive(Debug)]
pub struct Error {
    message: String,
}

/// Mathematical model of a request: every text as a sequence of characters,
/// the body as a sequence of bytes.
#[verifier::ext_equal]
pub ghost struct RequestView {
    pub kind: Type,
    pub path: Seq<char>,
    pub headers: Seq<(Seq<char>, Seq<char>)>,
    pub body: Option<Seq<u8>>,
}

/// Mathematical model of a response.
#[verifier::ext_equal]
pub ghost struct ResponseView {
    pub kind: Type,
    pub path: Option<Seq<char>>,
    pub status: Status,
    pub headers: Seq<(Seq<char>, Seq<char>)>,
    pub body: Option<Seq<u8>>,
}

pub open spec fn opt_bytes_view(b: Option<Vec<u8>>) -> Option<Seq<u8>> {
    match b {
        Some(v) => Some(v@),
        None => None,
    }
}

pub open spec fn opt_string_view(s: Option<String>) -> Option<Seq<char>> {
    match s {
        Some(v) => Some(v@),
        None => None,
    }
}

pub open spec fn headers_view(h: Vec<(String, String)>) -> Seq<(Seq<char>, Seq<char>)> {
    h@.map_values(|p: (String, String)| (p.0@, p.1@))
}

impl View for Request {
    type V = RequestView;

    open spec fn view(&self) -> RequestView {
        RequestView {
            kind: self.kind,
            path: self.path@,
            headers: headers_view(self.headers),
            body: opt_bytes_view(self.body),
        }
    }
}

impl View for Response {
    type V = ResponseView;

    open spec fn view(&self) -> ResponseView {
        ResponseView {
            kind: self.kind,
            path: opt_string_view(self.path),
            status: self.status,
            headers: headers_view(self.headers),
            body: opt_bytes_view(self.body),
        }
    }
}

impl View for Error {
    type V = Seq<char>;

    closed spec fn view(&self) -> Seq<char> {
        self.message@
    }
}

impl Error {
    pub fn new(message: String) -> (e: Error)
        ensures
            e@ == message@,
    {
        Error { message }
    }

    pub fn message(&self) -> (m: &String)
        ensures
            m@ == self@,
    {
        &self.message
    }
}

/// Copies a byte vector; the copy holds exactly the same bytes.
pub fn clone_bytes(v: &Vec<u8>) -> (r: Vec<u8>)
    ensures
        r@ == v@,
{
    let mut r: Vec<u8> = Vec::new();
    let mut i: usize = 0;
    while i < v.len()
        invariant
            0 <= i <= v.len(),
            r@ == v@.subrange(0, i as int),
        decreases v.len() - i,
    {
        r.push(v[i]);
        i += 1;
        proof {
            assert(r@ =~= v@.subrange(0, i as int));
        }
    }
    proof {
        assert(r@ =~= v@);
    }
    r
}

/// Copies an optional body.
pub fn clone_body(b: &Option<Vec<u8>>) -> (r: Option<Vec<u8>>)
    ensures
        opt_bytes_view(r) == opt_bytes_view(*b),
{
    match b {
        Some(v) => Some(clone_bytes(v)),
        None => None,
    }
}

} // verus!
