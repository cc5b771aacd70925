//! The response that serves an already-serialized JSON document.

use vstd::prelude::*;
use vstd::string::StringSliceAdditionalSpecFns;

use crate::bytes::dec_digits;
use crate::bytes::lemma_dec_digits_value;
use crate::bytes::str_bytes;
use crate::bytes::u64_to_dec;
use crate::headers::put;
use crate::headers::Headers;
use crate::response::body_view;
use crate::response::file_response::base_headers;
use crate::response::Response;

verus! {

/// A JSON document to serve: the status, the serialized JSON text, and
/// extra headers.
pub struct JsonResponse {
    pub status_code: u16,
    pub body: String,
    pub headers: Option<Headers>,
}

impl JsonResponse {
    /// The extra headers, if any, must themselves be well formed.
    pub open spec fn wf(&self) -> bool {
        match self.headers {
            Some(ref t) => t.wf(),
            None => true,
        }
    }

    /// The response serving the document under `Content-Type:
    /// application/json`, with `Content-Length` set to the body's byte
    /// length.
    pub fn into_response(self) -> (r: Response)
        requires
            self.wf(),
        ensures
            r.status_code == self.status_code,
            r.headers@ == put(
                put(
                    base_headers(&self.headers),
                    "Content-Type".spec_bytes(),
                    "application/json".spec_bytes(),
                ),
                "Content-Length".spec_bytes(),
                dec_digits(vstd::utf8::encode_utf8(self.body@).len() as int),
            ),
            r.headers.wf(),
            body_view(&r) == Some(vstd::utf8::encode_utf8(self.body@)),
    {
        let mut headers = match self.headers {
            Some(t) => t,
            None => Headers::new(),
        };
        headers.insert(str_bytes("Content-Type"), str_bytes("application/json"));
        let body = str_bytes(self.body.as_str());
        let len_bytes = u64_to_dec(body.len() as u64);
        proof {
            lemma_dec_digits_value(body@.len() as int);
        }
        headers.insert(str_bytes("Content-Length"), len_bytes);
        Response { status_code: self.status_code, headers, body: Some(body) }
    }
}

} // verus!
