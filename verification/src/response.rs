//! The response model and the canned error responses of the engine.

pub mod file_response;
pub mod html_response;
pub mod json_response;

use vstd::prelude::*;
use vstd::string::StringSliceAdditionalSpecFns;

use crate::bytes::str_bytes;
use crate::headers::Headers;

verus! {

/// A response: a status code, a header table, and an optional body.
#[derive(Debug)]
pub struct Response {
    pub status_code: u16,
    pub headers: Headers,
    pub body: Option<Vec<u8>>,
}

/// The body bytes of a response, if it has any.
pub open spec fn body_view(r: &Response) -> Option<Seq<u8>> {
    match r.body {
        Some(ref b) => Some(b@),
        None => None,
    }
}

/// A response with the given status, a lone `Content-Type: text/plain`
/// header, and the given text as its body.
pub fn plain_text_response(status: u16, text: &str) -> (r: Response)
    ensures
        r.status_code == status,
        r.headers@ == seq![("Content-Type".spec_bytes(), "text/plain".spec_bytes())],
        r.headers.wf(),
        body_view(&r) == Some(text.spec_bytes()),
{
    let mut headers = Headers::new();
    let ghost empty = headers@;
    headers.insert(str_bytes("Content-Type"), str_bytes("text/plain"));
    proof {
        assert(!crate::headers::has_name(empty, "Content-Type".spec_bytes()));
        assert(headers@ =~= seq![("Content-Type".spec_bytes(), "text/plain".spec_bytes())]);
    }
    Response { status_code: status, headers, body: Some(str_bytes(text)) }
}

/// The fixed response for a request that could not be decoded.
pub fn bad_request_response() -> (r: Response)
    ensures
        r.status_code == 400,
        r.headers@ == seq![("Content-Type".spec_bytes(), "text/plain".spec_bytes())],
        r.headers.wf(),
        body_view(&r) == Some("400 Bad Request".spec_bytes()),
{
    plain_text_response(400, "400 Bad Request")
}

/// The fixed response for a request nothing matched.
pub fn not_found_response() -> (r: Response)
    ensures
        r.status_code == 404,
        r.headers@ == seq![("Content-Type".spec_bytes(), "text/plain".spec_bytes())],
        r.headers.wf(),
        body_view(&r) == Some("404 Not Found".spec_bytes()),
{
    plain_text_response(404, "404 Not Found")
}

} // verus!
