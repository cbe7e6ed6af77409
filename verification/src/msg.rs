//! The data model: requests, responses, and the error taxonomy.
use vstd::prelude::*;

verus! {

/// Why an operation failed.
///
/// Every protocol failure and every I/O failure poisons the session it
/// happened on; only `Encoding` is raised before any byte reaches the wire,
/// so the session stays usable after it.
#[derive(Clone, Copy, Debug, PartialEq, Eq, Structural)]
pub enum ErrorKind {
    /// Dialing or securing the transport failed; no session exists.
    Connection,
    /// A write or read on an established session failed.
    Io,
    /// The status line had fewer than three parts or a non-numeric code.
    MalformedStatusLine,
    /// A header line before the blank terminator had no `": "` separator.
    MalformedHeaderLine,
    /// A `Content-Length` value was not a non-negative integer in range.
    MalformedContentLength,
    /// The header block exceeded the configured maximum size.
    HeadersTooLarge,
    /// The stream closed before the header terminator arrived.
    TruncatedHeaders,
    /// The stream closed before `Content-Length` bytes of body arrived.
    TruncatedBody,
    /// A caller-supplied header value contained a raw CR or LF.
    Encoding,
}

/// An error surfaced to the caller, carrying its taxonomy kind.
#[derive(Clone, Copy, Debug, PartialEq, Eq, Structural)]
pub struct Error {
    pub kind: ErrorKind,
}

impl Error {
    /// A human-readable description of the failure.
    pub fn message(&self) -> (r: &'static str) {
        match self.kind {
            ErrorKind::Connection => "connecting the transport failed",
            ErrorKind::Io => "reading or writing the session failed",
            ErrorKind::MalformedStatusLine => "malformed status line",
            ErrorKind::MalformedHeaderLine => "malformed header line",
            ErrorKind::MalformedContentLength => "malformed content length",
            ErrorKind::HeadersTooLarge => "header block exceeds the configured maximum",
            ErrorKind::TruncatedHeaders => "stream closed inside the header block",
            ErrorKind::TruncatedBody => "stream closed before the declared body length",
            ErrorKind::Encoding => "header value contains a raw CR or LF",
        }
    }
}

/// The mathematical model of a request: every field as a byte sequence.
pub ghost struct RequestModel {
    pub method: Seq<u8>,
    pub target: Seq<u8>,
    pub version: Seq<u8>,
    pub headers: Seq<(Seq<u8>, Seq<u8>)>,
    pub body: Seq<u8>,
}

/// An outgoing request.
///
/// Headers are an ordered collection of name/value pairs; duplicate names
/// are kept as separate entries and serialized as separate lines, in order.
#[derive(Clone, Debug)]
pub struct Request {
    /// The method token, e.g. `GET`.
    pub method: Vec<u8>,
    /// Path plus optional query, never an absolute URI.
    pub target: Vec<u8>,
    /// The protocol version the caller asked for; the wire always carries
    /// `HTTP/1.1`.
    pub version: Vec<u8>,
    /// Caller-supplied headers, order preserved, duplicates allowed.
    pub headers: Vec<(Vec<u8>, Vec<u8>)>,
    /// The body bytes, possibly empty.
    pub body: Vec<u8>,
}

impl View for Request {
    type V = RequestModel;

    open spec fn view(&self) -> RequestModel {
        RequestModel {
            method: self.method@,
            target: self.target@,
            version: self.version@,
            headers: self.headers@.map_values(|h: (Vec<u8>, Vec<u8>)| (h.0@, h.1@)),
            body: self.body@,
        }
    }
}

impl Default for Request {
    /// A `GET /` request with no headers and no body.
    fn default() -> (r: Self)
        ensures
            r@.method == seq![71u8, 69u8, 84u8],
            r@.target == seq![47u8],
            r@.version.len() == 0,
            r@.headers.len() == 0,
            r@.body.len() == 0,
    {
        let r = Request {
            method: vec![71u8, 69u8, 84u8],
            target: vec![47u8],
            version: Vec::new(),
            headers: Vec::new(),
            body: Vec::new(),
        };
        proof {
            assert(r@.headers =~= Seq::<(Seq<u8>, Seq<u8>)>::empty());
        }
        r
    }
}

/// The mathematical model of a response.
pub ghost struct ResponseModel {
    pub status_code: u16,
    pub reason_phrase: Seq<char>,
    pub version: Seq<char>,
    pub headers: Seq<(Seq<char>, Seq<char>)>,
    pub body: Seq<u8>,
}

/// A parsed response.
///
/// Reason phrase, version and header text are decoded leniently: byte
/// sequences that are not valid UTF-8 have their invalid parts replaced,
/// a deliberately lossy policy traded for robustness.  Header names keep
/// their wire spelling; lookups are expected to compare case-insensitively.
#[derive(Clone, Debug)]
pub struct Response {
    pub status_code: u16,
    pub reason_phrase: String,
    pub version: String,
    /// Ordered header pairs; duplicate names are preserved as separate
    /// entries in wire order.
    pub headers: Vec<(String, String)>,
    pub body: Vec<u8>,
}

impl View for Response {
    type V = ResponseModel;

    open spec fn view(&self) -> ResponseModel {
        ResponseModel {
            status_code: self.status_code,
            reason_phrase: self.reason_phrase@,
            version: self.version@,
            headers: self.headers@.map_values(|h: (String, String)| (h.0@, h.1@)),
            body: self.body@,
        }
    }
}

} // verus!
