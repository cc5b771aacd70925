//! The request model: the HTTP method token and the decoded request.

use vstd::prelude::*;
use vstd::string::StringSliceAdditionalSpecFns;

use crate::bytes::bytes_eq;
use crate::headers::Headers;
use crate::multipart::FormEntry;

verus! {

/// The HTTP method tokens the engine recognizes.
#[derive(Clone, Copy, Debug, PartialEq, Eq, Structural)]
pub enum Method {
    GET,
    POST,
    PUT,
    DELETE,
    PATCH,
    HEAD,
    OPTIONS,
    CONNECT,
    TRACE,
}

/// The canonical token of a method, as characters.
pub open spec fn method_token(m: Method) -> Seq<char> {
    match m {
        Method::GET => "GET"@,
        Method::POST => "POST"@,
        Method::PUT => "PUT"@,
        Method::DELETE => "DELETE"@,
        Method::PATCH => "PATCH"@,
        Method::HEAD => "HEAD"@,
        Method::OPTIONS => "OPTIONS"@,
        Method::CONNECT => "CONNECT"@,
        Method::TRACE => "TRACE"@,
    }
}

/// The canonical token of a method, as bytes.
pub open spec fn method_bytes(m: Method) -> Seq<u8> {
    vstd::utf8::encode_utf8(method_token(m))
}

/// The method whose token is `b`; an unrecognized token falls back to `GET`.
pub open spec fn method_of_bytes(b: Seq<u8>) -> Method {
    if b == "GET".spec_bytes() {
        Method::GET
    } else if b == "POST".spec_bytes() {
        Method::POST
    } else if b == "PUT".spec_bytes() {
        Method::PUT
    } else if b == "DELETE".spec_bytes() {
        Method::DELETE
    } else if b == "PATCH".spec_bytes() {
        Method::PATCH
    } else if b == "HEAD".spec_bytes() {
        Method::HEAD
    } else if b == "OPTIONS".spec_bytes() {
        Method::OPTIONS
    } else if b == "CONNECT".spec_bytes() {
        Method::CONNECT
    } else if b == "TRACE".spec_bytes() {
        Method::TRACE
    } else {
        Method::GET
    }
}

impl Method {
    /// The method named by `method`, falling back to `GET` for anything
    /// unrecognized.
    pub fn from_string(method: &str) -> (m: Method)
        ensures
            m == method_of_bytes(method.spec_bytes()),
    {
        let b = method.as_bytes();
        if bytes_eq(b, "GET".as_bytes()) {
            Method::GET
        } else if bytes_eq(b, "POST".as_bytes()) {
            Method::POST
        } else if bytes_eq(b, "PUT".as_bytes()) {
            Method::PUT
        } else if bytes_eq(b, "DELETE".as_bytes()) {
            Method::DELETE
        } else if bytes_eq(b, "PATCH".as_bytes()) {
            Method::PATCH
        } else if bytes_eq(b, "HEAD".as_bytes()) {
            Method::HEAD
        } else if bytes_eq(b, "OPTIONS".as_bytes()) {
            Method::OPTIONS
        } else if bytes_eq(b, "CONNECT".as_bytes()) {
            Method::CONNECT
        } else if bytes_eq(b, "TRACE".as_bytes()) {
            Method::TRACE
        } else {
            Method::GET
        }
    }

    /// The canonical token of this method.
    pub fn to_string(&self) -> (r: String)
        ensures
            r@ == method_token(*self),
    {
        match self {
            Method::GET => "GET".to_owned(),
            Method::POST => "POST".to_owned(),
            Method::PUT => "PUT".to_owned(),
            Method::DELETE => "DELETE".to_owned(),
            Method::PATCH => "PATCH".to_owned(),
            Method::HEAD => "HEAD".to_owned(),
            Method::OPTIONS => "OPTIONS".to_owned(),
            Method::CONNECT => "CONNECT".to_owned(),
            Method::TRACE => "TRACE".to_owned(),
        }
    }
}

/// A decoded request: the request-line tokens, the header table, the raw
/// body, and the multipart form entries when the body carried any.
#[derive(Debug)]
pub struct Request {
    pub method: Vec<u8>,
    pub path: Vec<u8>,
    pub headers: Headers,
    pub body: Vec<u8>,
    pub files: Vec<FormEntry>,
    pub http_version: Vec<u8>,
}

impl Request {
    /// A request with every part empty.
    pub fn new() -> (r: Request)
        ensures
            r.method@ == Seq::<u8>::empty(),
            r.path@ == Seq::<u8>::empty(),
            r.headers@ == Seq::<(Seq<u8>, Seq<u8>)>::empty(),
            r.headers.wf(),
            r.body@ == Seq::<u8>::empty(),
            r.files@ == Seq::<FormEntry>::empty(),
            r.http_version@ == Seq::<u8>::empty(),
    {
        let r = Request {
            method: Vec::new(),
            path: Vec::new(),
            headers: Headers::new(),
            body: Vec::new(),
            files: Vec::new(),
            http_version: Vec::new(),
        };
        proof {
            assert(r.method@ =~= Seq::<u8>::empty());
            assert(r.path@ =~= Seq::<u8>::empty());
            assert(r.body@ =~= Seq::<u8>::empty());
            assert(r.files@ =~= Seq::<FormEntry>::empty());
            assert(r.http_version@ =~= Seq::<u8>::empty());
        }
        r
    }
}

} // verus!
