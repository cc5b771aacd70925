//! The response that serves a ready HTML document.

use vstd::prelude::*;
use vstd::string::StringSliceAdditionalSpecFns;

use crate::bytes::str_bytes;
use crate::headers::put;
use crate::headers::Headers;
use crate::response::body_view;
use crate::response::file_response::base_headers;
use crate::response::Response;

verus! {

/// An HTML document to serve, with its status and extra headers.
pub struct HtmlResponse {
    pub status_code: u16,
    pub content: String,
    pub headers: Option<Headers>,
}

impl HtmlResponse {
    /// The extra headers, if any, must themselves be well formed.
    pub open spec fn wf(&self) -> bool {
        match self.headers {
            Some(ref t) => t.wf(),
            None => true,
        }
    }

    /// The response serving the document under `Content-Type: text/html`.
    pub fn into_response(self) -> (r: Response)
        requires
            self.wf(),
        ensures
            r.status_code == self.status_code,
            r.headers@ == put(
                base_headers(&self.headers),
                "Content-Type".spec_bytes(),
                "text/html".spec_bytes(),
            ),
            r.headers.wf(),
            body_view(&r) == Some(vstd::utf8::encode_utf8(self.content@)),
    {
        let mut headers = match self.headers {
            Some(t) => t,
            None => Headers::new(),
        };
        headers.insert(str_bytes("Content-Type"), str_bytes("text/html"));
        let body = str_bytes(self.content.as_str());
        Response { status_code: self.status_code, headers, body: Some(body) }
    }
}

} // verus!
